use std::sync::Arc;

use texo_pnr::device::Device;
use texo_pnr::eco::{
    legal_route_eco_candidate_with_workspace, LegalRouteEcoConnection, LegalRouteEcoOptions,
};
use texo_pnr::eco_nets::{
    legal_net_route_eco_candidate_with_workspace, legal_nets_route_eco_candidate_with_workspace,
};
use texo_pnr::model::{
    CellPinId, Connection, Design, NetId, PinDirection, PipId, Point, ResourceKind, WireId,
};
use texo_pnr::ordered::{OrderedKey, OrderedMap};
use texo_pnr::placement::Placement;
use texo_pnr::route::{NetRoute, RouteArc};
use texo_pnr::routing::PnrResult;
use texo_pnr::routing_constraints::RoutingConstraints;
use texo_pnr::routing_costs::RoutingCosts;
use texo_pnr::workspace::RoutingWorkspace;

fn keyed<K: OrderedKey, V: Copy>(entries: &[(K, V)]) -> OrderedMap<K, V> {
    let mut map = OrderedMap::new();
    for &(key, value) in entries {
        map.insert(key, value);
    }
    map
}

fn arcs<V: Copy>(entries: &[((NetId, CellPinId), V)]) -> OrderedMap<Connection, V> {
    let mut map = OrderedMap::new();
    for &((net, sink), value) in entries {
        map.insert(Connection { net, sink }, value);
    }
    map
}


struct LegalPolishFixture {
    design: Design,
    device: Device,
    placement: Placement,
    costs: RoutingCosts,
    routes: Vec<Arc<NetRoute>>,
    target_sink: CellPinId,
    fast_pips: [PipId; 2],
    occupied_detour: WireId,
}

fn legal_polish_fixture() -> LegalPolishFixture {
    let mut design = Design::new();
    let target_source = design.add_cell("target-source".to_string(), ResourceKind::Logic);
    let target_output = design
        .add_pin(target_source, "O".to_string(), PinDirection::Output)
        .unwrap();
    let target_sink_cell = design.add_cell("target-sink".to_string(), ResourceKind::Register);
    let target_sink = design
        .add_pin(target_sink_cell, "I".to_string(), PinDirection::Input)
        .unwrap();
    let obstacle_source = design.add_cell("obstacle-source".to_string(), ResourceKind::Logic);
    let obstacle_output = design
        .add_pin(obstacle_source, "OO".to_string(), PinDirection::Output)
        .unwrap();
    let obstacle_sink_cell = design.add_cell("obstacle-sink".to_string(), ResourceKind::Register);
    let obstacle_sink = design
        .add_pin(obstacle_sink_cell, "II".to_string(), PinDirection::Input)
        .unwrap();
    design
        .add_net("target".to_string(), target_output, vec![target_sink])
        .unwrap();
    design
        .add_net("obstacle".to_string(), obstacle_output, vec![obstacle_sink])
        .unwrap();

    let mut device = Device::new("legal-polish".to_string(), 5, 2).unwrap();
    let driver = device.add_wire("driver".to_string(), Point::new(0, 0), 1).unwrap();
    let slow = device.add_wire("slow".to_string(), Point::new(1, 1), 1).unwrap();
    let fast = device.add_wire("fast".to_string(), Point::new(2, 0), 1).unwrap();
    let target_goal = device.add_wire("target-goal".to_string(), Point::new(4, 0), 1).unwrap();
    let obstacle_driver = device
        .add_wire("obstacle-driver".to_string(), Point::new(0, 1), 1)
        .unwrap();
    let occupied_detour = device
        .add_wire("occupied-detour".to_string(), Point::new(2, 1), 1)
        .unwrap();
    let obstacle_goal = device
        .add_wire("obstacle-goal".to_string(), Point::new(4, 1), 1)
        .unwrap();

    let slow_first = device.add_pip(driver, slow, false, 1).unwrap();
    let slow_last = device.add_pip(slow, target_goal, false, 1).unwrap();
    let fast_first = device.add_pip(driver, fast, false, 1).unwrap();
    let fast_last = device.add_pip(fast, target_goal, false, 1).unwrap();
    // This would be the cheapest target path if polishing were allowed to
    // displace an already-legal connection. The obstacle net owns its
    // middle wire and must remain untouched.
    device.add_pip(driver, occupied_detour, false, 1).unwrap();
    device
        .add_pip(occupied_detour, target_goal, false, 1)
        .unwrap();
    let obstacle_first = device
        .add_pip(obstacle_driver, occupied_detour, false, 1)
        .unwrap();
    let obstacle_last = device
        .add_pip(occupied_detour, obstacle_goal, false, 1)
        .unwrap();

    let add_bel = |device: &mut Device,
                   name: &str,
                   kind: ResourceKind,
                   point: Point,
                   pin: &str,
                   direction: PinDirection,
                   wire: WireId| {
        let bel = device.add_bel(name.to_string(), kind, point).unwrap();
        device.add_bel_pin(bel, pin.to_string(), direction, wire).unwrap();
        bel
    };
    let target_source_bel = add_bel(
        &mut device,
        "target-source",
        ResourceKind::Logic,
        Point::new(0, 0),
        "O",
        PinDirection::Output,
        driver,
    );
    let target_sink_bel = add_bel(
        &mut device,
        "target-sink",
        ResourceKind::Register,
        Point::new(4, 0),
        "I",
        PinDirection::Input,
        target_goal,
    );
    let obstacle_source_bel = add_bel(
        &mut device,
        "obstacle-source",
        ResourceKind::Logic,
        Point::new(0, 1),
        "OO",
        PinDirection::Output,
        obstacle_driver,
    );
    let obstacle_sink_bel = add_bel(
        &mut device,
        "obstacle-sink",
        ResourceKind::Register,
        Point::new(4, 1),
        "II",
        PinDirection::Input,
        obstacle_goal,
    );
    let placement = Placement {
        bindings: vec![
            target_source_bel,
            target_sink_bel,
            obstacle_source_bel,
            obstacle_sink_bel,
        ],
        pin_bindings: OrderedMap::new(),
    };
    let target_route = Arc::new(NetRoute::new(
        NetId(0),
        vec![RouteArc {
            sink: Some(target_sink),
            wires: vec![driver, slow, target_goal],
            pips: vec![slow_first, slow_last],
        }],
    ));
    let obstacle_route = Arc::new(NetRoute::new(
        NetId(1),
        vec![RouteArc {
            sink: Some(obstacle_sink),
            wires: vec![obstacle_driver, occupied_detour, obstacle_goal],
            pips: vec![obstacle_first, obstacle_last],
        }],
    ));
    let mut costs = RoutingCosts::new(
        vec![300, 300, 100, 100, 1, 1, 10, 10],
        keyed(&[(NetId(0), 64), (NetId(1), 1)]),
    );
    costs.set_sink_criticalities(arcs(&[
        ((NetId(0), target_sink), 64),
        ((NetId(1), obstacle_sink), 1),
    ]));
    LegalPolishFixture {
        design,
        device,
        placement,
        costs,
        routes: vec![target_route, obstacle_route],
        target_sink,
        fast_pips: [fast_first, fast_last],
        occupied_detour,
    }
}

struct WholeNetEcoFixture {
    design: Design,
    device: Device,
    incumbent: PnrResult,
    costs: RoutingCosts,
    sinks: Vec<CellPinId>,
    driver: WireId,
    slow: WireId,
    branch: WireId,
    slow_pips: [PipId; 2],
    fast_pips: [PipId; 2],
    leaf_pips: Vec<PipId>,
}

fn whole_net_eco_fixture() -> WholeNetEcoFixture {
    let mut design = Design::new();
    let source = design.add_cell("target-source".to_string(), ResourceKind::Logic);
    let output = design.add_pin(source, "O".to_string(), PinDirection::Output).unwrap();
    let mut sinks = Vec::new();
    for index in 0..4 {
        let cell = design.add_cell(format!("target-sink-{index}"), ResourceKind::Register);
        let sink = design.add_pin(cell, "I".to_string(), PinDirection::Input).unwrap();
        sinks.push(sink);
    }
    let obstacle_source = design.add_cell("obstacle-source".to_string(), ResourceKind::Logic);
    let obstacle_output = design
        .add_pin(obstacle_source, "OO".to_string(), PinDirection::Output)
        .unwrap();
    let obstacle_sink_cell = design.add_cell("obstacle-sink".to_string(), ResourceKind::Register);
    let obstacle_sink = design
        .add_pin(obstacle_sink_cell, "II".to_string(), PinDirection::Input)
        .unwrap();
    let target_net = design
        .add_net("target".to_string(), output, sinks.iter().copied().collect())
        .unwrap();
    let obstacle_net = design
        .add_net("obstacle".to_string(), obstacle_output, vec![obstacle_sink])
        .unwrap();

    let mut device = Device::new("whole-net-eco".to_string(), 4, 5).unwrap();
    let driver = device.add_wire("driver".to_string(), Point::new(0, 0), 1).unwrap();
    let slow = device.add_wire("slow".to_string(), Point::new(1, 1), 1).unwrap();
    let fast = device.add_wire("fast".to_string(), Point::new(1, 0), 1).unwrap();
    let branch = device.add_wire("branch".to_string(), Point::new(2, 0), 1).unwrap();
    let leaves = (0..4)
        .map(|index| {
            device
                .add_wire(format!("goal-{index}"), Point::new(3, index), 1)
                .unwrap()
        })
        .collect::<Vec<_>>();
    let obstacle_driver = device
        .add_wire("obstacle-driver".to_string(), Point::new(0, 4), 1)
        .unwrap();
    let occupied_shortcut = device
        .add_wire("occupied-shortcut".to_string(), Point::new(1, 3), 1)
        .unwrap();
    let obstacle_goal = device
        .add_wire("obstacle-goal".to_string(), Point::new(3, 4), 1)
        .unwrap();

    let slow_pips = [
        device.add_pip(driver, slow, false, 1).unwrap(),
        device.add_pip(slow, branch, false, 1).unwrap(),
    ];
    let fast_pips = [
        device.add_pip(driver, fast, false, 1).unwrap(),
        device.add_pip(fast, branch, false, 1).unwrap(),
    ];
    // The physically occupied shortcut is faster than either legal target
    // prefix. A hard whole-net transaction must not displace its owner.
    device.add_pip(driver, occupied_shortcut, false, 1).unwrap();
    device.add_pip(occupied_shortcut, branch, false, 1).unwrap();
    let leaf_pips = leaves
        .iter()
        .map(|&leaf| device.add_pip(branch, leaf, false, 1).unwrap())
        .collect::<Vec<_>>();
    let obstacle_pips = [
        device
            .add_pip(obstacle_driver, occupied_shortcut, false, 1)
            .unwrap(),
        device
            .add_pip(occupied_shortcut, obstacle_goal, false, 1)
            .unwrap(),
    ];

    let add_bel = |device: &mut Device,
                   name: &str,
                   kind: ResourceKind,
                   point: Point,
                   pin: &str,
                   direction: PinDirection,
                   wire: WireId| {
        let bel = device.add_bel(name.to_string(), kind, point).unwrap();
        device.add_bel_pin(bel, pin.to_string(), direction, wire).unwrap();
        bel
    };
    let source_bel = add_bel(
        &mut device,
        "target-source",
        ResourceKind::Logic,
        Point::new(0, 0),
        "O",
        PinDirection::Output,
        driver,
    );
    let sink_bels = leaves
        .iter()
        .enumerate()
        .map(|(index, &leaf)| {
            add_bel(
                &mut device,
                &format!("target-sink-{index}"),
                ResourceKind::Register,
                Point::new(3, u32::try_from(index).unwrap()),
                "I",
                PinDirection::Input,
                leaf,
            )
        })
        .collect::<Vec<_>>();
    let obstacle_source_bel = add_bel(
        &mut device,
        "obstacle-source",
        ResourceKind::Logic,
        Point::new(0, 4),
        "OO",
        PinDirection::Output,
        obstacle_driver,
    );
    let obstacle_sink_bel = add_bel(
        &mut device,
        "obstacle-sink",
        ResourceKind::Register,
        Point::new(3, 4),
        "II",
        PinDirection::Input,
        obstacle_goal,
    );
    let mut bindings = vec![source_bel];
    bindings.extend(sink_bels);
    bindings.extend([obstacle_source_bel, obstacle_sink_bel]);
    let placement = Placement {
        bindings,
        pin_bindings: OrderedMap::new(),
    };

    let target_route = Arc::new(NetRoute::new(
        target_net,
        sinks
            .iter()
            .zip(&leaves)
            .zip(&leaf_pips)
            .map(|((&sink, &leaf), &leaf_pip)| RouteArc {
                sink: Some(sink),
                wires: vec![driver, slow, branch, leaf],
                pips: vec![slow_pips[0], slow_pips[1], leaf_pip],
            })
            .collect(),
    ));
    let obstacle_route = Arc::new(NetRoute::new(
        obstacle_net,
        vec![RouteArc {
            sink: Some(obstacle_sink),
            wires: vec![obstacle_driver, occupied_shortcut, obstacle_goal],
            pips: obstacle_pips.to_vec(),
        }],
    ));
    let routes = vec![target_route, obstacle_route];
    let incumbent = PnrResult {
        placement,
        total_pips: routes.iter().map(|route| route.pips().len()).sum(),
        routes,
    };

    let mut pip_delays = vec![1_u32; device.pips().len()];
    for pip in slow_pips {
        pip_delays[pip.0] = 400;
    }
    for pip in fast_pips {
        pip_delays[pip.0] = 50;
    }
    for &pip in &leaf_pips {
        pip_delays[pip.0] = 10;
    }
    let mut costs = RoutingCosts::new(
        pip_delays,
        keyed(&[(target_net, 64), (obstacle_net, 1)]),
    );
    let criticalities = sinks
        .iter()
        .enumerate()
        .map(|(index, &sink)| ((target_net, sink), 64 - u64::try_from(index).unwrap() * 8))
        .chain([((obstacle_net, obstacle_sink), 1)])
        .collect::<Vec<_>>();
    costs.set_sink_criticalities(arcs(&criticalities));

    WholeNetEcoFixture {
        design,
        device,
        incumbent,
        costs,
        sinks,
        driver,
        slow,
        branch,
        slow_pips,
        fast_pips,
        leaf_pips,
    }
}

struct NetCohortEcoFixture {
    design: Design,
    device: Device,
    incumbent: PnrResult,
    costs: RoutingCosts,
    a_sink: CellPinId,
    b_sink: CellPinId,
    a_fast_pips: [PipId; 2],
    b_alternate_pips: [PipId; 2],
}

fn net_cohort_eco_fixture() -> NetCohortEcoFixture {
    let mut design = Design::new();
    let a_source = design.add_cell("a-source".to_string(), ResourceKind::Logic);
    let a_output = design
        .add_pin(a_source, "AO".to_string(), PinDirection::Output)
        .unwrap();
    let a_sink_cell = design.add_cell("a-sink".to_string(), ResourceKind::Register);
    let a_sink = design
        .add_pin(a_sink_cell, "AI".to_string(), PinDirection::Input)
        .unwrap();
    let b_source = design.add_cell("b-source".to_string(), ResourceKind::Logic);
    let b_output = design
        .add_pin(b_source, "BO".to_string(), PinDirection::Output)
        .unwrap();
    let b_sink_cell = design.add_cell("b-sink".to_string(), ResourceKind::Register);
    let b_sink = design
        .add_pin(b_sink_cell, "BI".to_string(), PinDirection::Input)
        .unwrap();
    let fixed_source = design.add_cell("fixed-source".to_string(), ResourceKind::Logic);
    let fixed_output = design
        .add_pin(fixed_source, "FO".to_string(), PinDirection::Output)
        .unwrap();
    let fixed_sink_cell = design.add_cell("fixed-sink".to_string(), ResourceKind::Register);
    let fixed_sink = design
        .add_pin(fixed_sink_cell, "FI".to_string(), PinDirection::Input)
        .unwrap();
    let a_net = design.add_net("a".to_string(), a_output, vec![a_sink]).unwrap();
    let b_net = design.add_net("b".to_string(), b_output, vec![b_sink]).unwrap();
    let fixed_net = design
        .add_net("unselected".to_string(), fixed_output, vec![fixed_sink])
        .unwrap();

    let mut device = Device::new("net-cohort-eco".to_string(), 5, 3).unwrap();
    let a_driver = device.add_wire("a-driver".to_string(), Point::new(0, 0), 1).unwrap();
    let a_slow = device.add_wire("a-slow".to_string(), Point::new(2, 0), 1).unwrap();
    let a_goal = device.add_wire("a-goal".to_string(), Point::new(4, 0), 1).unwrap();
    let b_driver = device.add_wire("b-driver".to_string(), Point::new(0, 1), 1).unwrap();
    let shared = device.add_wire("shared-fast".to_string(), Point::new(2, 1), 1).unwrap();
    let b_alternate = device.add_wire("b-alternate".to_string(), Point::new(2, 2), 1).unwrap();
    let b_goal = device.add_wire("b-goal".to_string(), Point::new(4, 1), 1).unwrap();
    let fixed_driver = device
        .add_wire("fixed-driver".to_string(), Point::new(0, 2), 1)
        .unwrap();
    let fixed_goal = device.add_wire("fixed-goal".to_string(), Point::new(4, 2), 1).unwrap();

    let a_slow_pips = [
        device.add_pip(a_driver, a_slow, false, 1).unwrap(),
        device.add_pip(a_slow, a_goal, false, 1).unwrap(),
    ];
    let a_fast_pips = [
        device.add_pip(a_driver, shared, false, 1).unwrap(),
        device.add_pip(shared, a_goal, false, 1).unwrap(),
    ];
    let b_shared_pips = [
        device.add_pip(b_driver, shared, false, 1).unwrap(),
        device.add_pip(shared, b_goal, false, 1).unwrap(),
    ];
    let b_alternate_pips = [
        device.add_pip(b_driver, b_alternate, false, 1).unwrap(),
        device.add_pip(b_alternate, b_goal, false, 1).unwrap(),
    ];
    let fixed_pip = device.add_pip(fixed_driver, fixed_goal, false, 1).unwrap();

    let add_bel = |device: &mut Device,
                   name: &str,
                   kind: ResourceKind,
                   point: Point,
                   pin: &str,
                   direction: PinDirection,
                   wire: WireId| {
        let bel = device.add_bel(name.to_string(), kind, point).unwrap();
        device.add_bel_pin(bel, pin.to_string(), direction, wire).unwrap();
        bel
    };
    let bindings = vec![
        add_bel(
            &mut device,
            "a-source",
            ResourceKind::Logic,
            Point::new(0, 0),
            "AO",
            PinDirection::Output,
            a_driver,
        ),
        add_bel(
            &mut device,
            "a-sink",
            ResourceKind::Register,
            Point::new(4, 0),
            "AI",
            PinDirection::Input,
            a_goal,
        ),
        add_bel(
            &mut device,
            "b-source",
            ResourceKind::Logic,
            Point::new(0, 1),
            "BO",
            PinDirection::Output,
            b_driver,
        ),
        add_bel(
            &mut device,
            "b-sink",
            ResourceKind::Register,
            Point::new(4, 1),
            "BI",
            PinDirection::Input,
            b_goal,
        ),
        add_bel(
            &mut device,
            "fixed-source",
            ResourceKind::Logic,
            Point::new(0, 2),
            "FO",
            PinDirection::Output,
            fixed_driver,
        ),
        add_bel(
            &mut device,
            "fixed-sink",
            ResourceKind::Register,
            Point::new(4, 2),
            "FI",
            PinDirection::Input,
            fixed_goal,
        ),
    ];
    let placement = Placement {
        bindings,
        pin_bindings: OrderedMap::new(),
    };
    let routes = vec![
        Arc::new(NetRoute::new(
            a_net,
            vec![RouteArc {
                sink: Some(a_sink),
                wires: vec![a_driver, a_slow, a_goal],
                pips: a_slow_pips.to_vec(),
            }],
        )),
        Arc::new(NetRoute::new(
            b_net,
            vec![RouteArc {
                sink: Some(b_sink),
                wires: vec![b_driver, shared, b_goal],
                pips: b_shared_pips.to_vec(),
            }],
        )),
        Arc::new(NetRoute::new(
            fixed_net,
            vec![RouteArc {
                sink: Some(fixed_sink),
                wires: vec![fixed_driver, fixed_goal],
                pips: vec![fixed_pip],
            }],
        )),
    ];
    let incumbent = PnrResult {
        placement,
        total_pips: routes.iter().map(|route| route.pips().len()).sum(),
        routes,
    };

    let mut pip_delays = vec![1_u32; device.pips().len()];
    for pip in a_slow_pips {
        pip_delays[pip.0] = 400;
    }
    for pip in a_fast_pips {
        pip_delays[pip.0] = 20;
    }
    for pip in b_shared_pips {
        pip_delays[pip.0] = 20;
    }
    for pip in b_alternate_pips {
        pip_delays[pip.0] = 100;
    }
    let mut costs = RoutingCosts::new(
        pip_delays,
        keyed(&[(a_net, 64), (b_net, 8), (fixed_net, 1)]),
    );
    costs.set_sink_criticalities(arcs(&[
        ((a_net, a_sink), 64),
        ((b_net, b_sink), 8),
        ((fixed_net, fixed_sink), 1),
    ]));

    NetCohortEcoFixture {
        design,
        device,
        incumbent,
        costs,
        a_sink,
        b_sink,
        a_fast_pips,
        b_alternate_pips,
    }
}

fn legal_polish_incumbent(fixture: &LegalPolishFixture) -> PnrResult {
    PnrResult {
        placement: fixture.placement.clone(),
        total_pips: fixture.routes.iter().map(|route| route.pips().len()).sum(),
        routes: fixture.routes.clone(),
    }
}

fn assert_workspace_matches_incumbent(
    device: &Device,
    incumbent: &PnrResult,
    workspace: &RoutingWorkspace,
) {
    let mut expected_wires = vec![0_u16; device.wires().len()];
    let mut expected_pips = vec![0_u16; device.pips().len()];
    for route in &incumbent.routes {
        for wire in route.wires() {
            expected_wires[wire.0] += 1;
        }
        for pip in route.pips() {
            expected_pips[pip.0] += 1;
        }
    }
    assert_eq!(workspace.wires.occupancy, expected_wires);
    assert_eq!(workspace.pips.occupancy, expected_pips);
    assert!(workspace.wires.history.iter().all(|&history| history == 0));
    assert!(workspace.pips.history.iter().all(|&history| history == 0));
    assert!(workspace.wires.congestion.iter().all(|&cost| cost == 0));
    assert!(workspace.pips.congestion.iter().all(|&cost| cost == 0));
    assert!(workspace.resident_valid);
    assert_eq!(workspace.resident_routes.len(), incumbent.routes.len());
    assert!(workspace.resident_routes.iter().zip(&incumbent.routes).all(
        |(resident, incumbent)| {
            resident
                .as_ref()
                .is_some_and(|resident| Arc::ptr_eq(resident, incumbent))
        }
    ));
}

fn assert_workspace_restored_to_incumbent(
    fixture: &WholeNetEcoFixture,
    workspace: &RoutingWorkspace,
) {
    assert_workspace_matches_incumbent(&fixture.device, &fixture.incumbent, workspace);
}

#[test]
fn legal_route_eco_changes_only_the_selected_connection_under_hard_occupancy() {
    let fixture = legal_polish_fixture();
    let incumbent = legal_polish_incumbent(&fixture);
    let before = incumbent.clone();
    let obstacle = incumbent.routes[1].clone();
    let mut workspace = RoutingWorkspace::new(&fixture.device);
    workspace.search.estimate_delay_per_tile_ps = 73;

    let candidate = legal_route_eco_candidate_with_workspace(
        &fixture.design,
        &fixture.device,
        &incumbent,
        &RoutingConstraints::new(),
        &fixture.costs,
        LegalRouteEcoConnection::new(NetId(0), fixture.target_sink),
        LegalRouteEcoOptions::new(52),
        &mut workspace,
    )
    .unwrap()
    .expect("the target has a faster conflict-free route");

    assert_eq!(incumbent, before, "candidate construction is transactional");
    assert_eq!(candidate.placement, incumbent.placement);
    assert_eq!(
        candidate.routes[0].arc(fixture.target_sink).unwrap().pips,
        fixture.fast_pips
    );
    assert!(Arc::ptr_eq(&candidate.routes[1], &obstacle));
    assert_eq!(candidate.routes[1], incumbent.routes[1]);
    assert!(
        !candidate.routes[0]
            .wires()
            .contains(&fixture.occupied_detour)
    );
    assert_eq!(workspace.search.estimate_delay_per_tile_ps, 73);
}

#[test]
fn failed_legal_route_eco_leaves_the_incumbent_bit_exact() {
    let fixture = legal_polish_fixture();
    let incumbent = legal_polish_incumbent(&fixture);
    let before = incumbent.clone();
    let mut costs = fixture.costs.clone();
    costs.set_sink_min_delays_ps(arcs(&[((NetId(0), fixture.target_sink), 10_000)]));
    let mut workspace = RoutingWorkspace::new(&fixture.device);

    let candidate = legal_route_eco_candidate_with_workspace(
        &fixture.design,
        &fixture.device,
        &incumbent,
        &RoutingConstraints::new(),
        &costs,
        LegalRouteEcoConnection::new(NetId(0), fixture.target_sink),
        LegalRouteEcoOptions::new(52),
        &mut workspace,
    )
    .unwrap();

    assert!(candidate.is_none());
    assert_eq!(incumbent, before);
    assert!(
        incumbent
            .routes
            .iter()
            .zip(&before.routes)
            .all(|(current, original)| Arc::ptr_eq(current, original))
    );
}

#[test]
fn net_cohort_eco_releases_a_competing_route_before_criticality_ordered_rebuild() {
    let fixture = net_cohort_eco_fixture();
    let before = fixture.incumbent.clone();
    let unselected = fixture.incumbent.routes[2].clone();
    let mut reused_workspace = RoutingWorkspace::new(&fixture.device);

    let single = legal_net_route_eco_candidate_with_workspace(
        &fixture.design,
        &fixture.device,
        &fixture.incumbent,
        &RoutingConstraints::new(),
        &fixture.costs,
        NetId(0),
        LegalRouteEcoOptions::new(52),
        &mut reused_workspace,
    )
    .unwrap();
    assert!(
        single.is_none(),
        "net B's hard occupancy must hide net A's fast resource"
    );

    let mut malformed = fixture.incumbent.clone();
    malformed.routes.pop();
    let error = legal_nets_route_eco_candidate_with_workspace(
        &fixture.design,
        &fixture.device,
        &malformed,
        &RoutingConstraints::new(),
        &fixture.costs,
        &[NetId(0), NetId(1)],
        LegalRouteEcoOptions::new(52),
        &mut reused_workspace,
    )
    .unwrap_err();
    assert!(
        error
            .message()
            .contains("incumbent contains 2 route trees")
    );
    assert_workspace_matches_incumbent(&fixture.device, &fixture.incumbent, &reused_workspace);

    // Reverse order, with a duplicate, deliberately differs from the
    // required criticality order. Canonical cohort scheduling must still
    // rebuild A first, then move B to its alternate route.
    let candidate = legal_nets_route_eco_candidate_with_workspace(
        &fixture.design,
        &fixture.device,
        &fixture.incumbent,
        &RoutingConstraints::new(),
        &fixture.costs,
        &[NetId(1), NetId(0), NetId(1)],
        LegalRouteEcoOptions::new(52),
        &mut reused_workspace,
    )
    .unwrap()
    .expect("simultaneous release must expose the fast resource to net A");

    assert_eq!(fixture.incumbent, before);
    assert_eq!(
        candidate.routes[0].arc(fixture.a_sink).unwrap().pips,
        fixture.a_fast_pips
    );
    assert_eq!(
        candidate.routes[1].arc(fixture.b_sink).unwrap().pips,
        fixture.b_alternate_pips
    );
    assert!(Arc::ptr_eq(&candidate.routes[2], &unselected));
    assert_workspace_matches_incumbent(&fixture.device, &fixture.incumbent, &reused_workspace);

    let mut impossible_costs = fixture.costs.clone();
    impossible_costs
        .set_sink_min_delays_ps(arcs(&[((NetId(1), fixture.b_sink), 10_000)]));
    let failed = legal_nets_route_eco_candidate_with_workspace(
        &fixture.design,
        &fixture.device,
        &fixture.incumbent,
        &RoutingConstraints::new(),
        &impossible_costs,
        &[NetId(0), NetId(1)],
        LegalRouteEcoOptions::new(52),
        &mut reused_workspace,
    )
    .unwrap();
    assert!(
        failed.is_none(),
        "a later unroutable cohort member must roll back earlier rebuilds"
    );
    assert_workspace_matches_incumbent(&fixture.device, &fixture.incumbent, &reused_workspace);

    let reused = legal_nets_route_eco_candidate_with_workspace(
        &fixture.design,
        &fixture.device,
        &fixture.incumbent,
        &RoutingConstraints::new(),
        &fixture.costs,
        &[NetId(0), NetId(1)],
        LegalRouteEcoOptions::new(52),
        &mut reused_workspace,
    )
    .unwrap();
    let mut fresh_workspace = RoutingWorkspace::new(&fixture.device);
    let fresh = legal_nets_route_eco_candidate_with_workspace(
        &fixture.design,
        &fixture.device,
        &fixture.incumbent,
        &RoutingConstraints::new(),
        &fixture.costs,
        &[NetId(0), NetId(1)],
        LegalRouteEcoOptions::new(52),
        &mut fresh_workspace,
    )
    .unwrap();
    assert_eq!(reused, fresh);
}

#[test]
fn whole_net_eco_rebuilds_a_shared_slow_prefix_transactionally() {
    let fixture = whole_net_eco_fixture();
    let before = fixture.incumbent.clone();
    let obstacle = fixture.incumbent.routes[1].clone();
    let mut workspace = RoutingWorkspace::new(&fixture.device);

    let connection_candidate = legal_route_eco_candidate_with_workspace(
        &fixture.design,
        &fixture.device,
        &fixture.incumbent,
        &RoutingConstraints::new(),
        &fixture.costs,
        LegalRouteEcoConnection::new(NetId(0), fixture.sinks[0]),
        LegalRouteEcoOptions::new(52),
        &mut workspace,
    )
    .unwrap();
    assert!(
        connection_candidate.is_none(),
        "the retained sibling tree prevents a shared-prefix repair"
    );

    let candidate = legal_net_route_eco_candidate_with_workspace(
        &fixture.design,
        &fixture.device,
        &fixture.incumbent,
        &RoutingConstraints::new(),
        &fixture.costs,
        NetId(0),
        LegalRouteEcoOptions::new(52),
        &mut workspace,
    )
    .unwrap()
    .expect("whole-net release exposes the fast shared prefix");

    assert_eq!(fixture.incumbent, before);
    assert!(
        fixture
            .incumbent
            .routes
            .iter()
            .zip(&before.routes)
            .all(|(current, original)| Arc::ptr_eq(current, original))
    );
    assert_eq!(candidate.placement, fixture.incumbent.placement);
    assert!(Arc::ptr_eq(&candidate.routes[1], &obstacle));
    for ((&sink, &leaf_pip), arc) in fixture
        .sinks
        .iter()
        .zip(&fixture.leaf_pips)
        .zip(candidate.routes[0].arcs.iter())
    {
        assert_eq!(arc.sink, Some(sink));
        assert_eq!(
            arc.pips,
            [fixture.fast_pips[0], fixture.fast_pips[1], leaf_pip]
        );
        assert!(arc.pips.iter().all(|pip| !fixture.slow_pips.contains(pip)));
    }
    assert_workspace_restored_to_incumbent(&fixture, &workspace);

    let mut fresh_workspace = RoutingWorkspace::new(&fixture.device);
    let repeated = legal_net_route_eco_candidate_with_workspace(
        &fixture.design,
        &fixture.device,
        &fixture.incumbent,
        &RoutingConstraints::new(),
        &fixture.costs,
        NetId(0),
        LegalRouteEcoOptions::new(52),
        &mut workspace,
    )
    .unwrap();
    let fresh = legal_net_route_eco_candidate_with_workspace(
        &fixture.design,
        &fixture.device,
        &fixture.incumbent,
        &RoutingConstraints::new(),
        &fixture.costs,
        NetId(0),
        LegalRouteEcoOptions::new(52),
        &mut fresh_workspace,
    )
    .unwrap();
    assert_eq!(repeated, fresh);
}

#[test]
fn failed_whole_net_eco_restores_workspace_before_a_reused_trial() {
    let fixture = whole_net_eco_fixture();
    let before = fixture.incumbent.clone();
    let mut impossible_costs = fixture.costs.clone();
    let minimums = fixture
        .sinks
        .iter()
        .map(|&sink| ((NetId(0), sink), 10_000))
        .collect::<Vec<_>>();
    impossible_costs.set_sink_min_delays_ps(arcs(&minimums));
    let mut reused_workspace = RoutingWorkspace::new(&fixture.device);
    let failed = legal_net_route_eco_candidate_with_workspace(
        &fixture.design,
        &fixture.device,
        &fixture.incumbent,
        &RoutingConstraints::new(),
        &impossible_costs,
        NetId(0),
        LegalRouteEcoOptions::new(52),
        &mut reused_workspace,
    )
    .unwrap();
    assert!(failed.is_none());
    assert_eq!(fixture.incumbent, before);
    assert_workspace_restored_to_incumbent(&fixture, &reused_workspace);

    let reused = legal_net_route_eco_candidate_with_workspace(
        &fixture.design,
        &fixture.device,
        &fixture.incumbent,
        &RoutingConstraints::new(),
        &fixture.costs,
        NetId(0),
        LegalRouteEcoOptions::new(52),
        &mut reused_workspace,
    )
    .unwrap();
    let mut fresh_workspace = RoutingWorkspace::new(&fixture.device);
    let fresh = legal_net_route_eco_candidate_with_workspace(
        &fixture.design,
        &fixture.device,
        &fixture.incumbent,
        &RoutingConstraints::new(),
        &fixture.costs,
        NetId(0),
        LegalRouteEcoOptions::new(52),
        &mut fresh_workspace,
    )
    .unwrap();
    assert_eq!(reused, fresh);
}

#[test]
fn whole_net_eco_preserves_partial_locked_architecture_topology() {
    let mut fixture = whole_net_eco_fixture();
    let locked_arc = RouteArc {
        sink: None,
        wires: vec![fixture.driver, fixture.slow, fixture.branch],
        pips: fixture.slow_pips.to_vec(),
    };
    let mut tree = fixture.incumbent.routes[0].arcs.clone();
    tree.push(locked_arc.clone());
    fixture.incumbent.routes[0] = Arc::new(NetRoute::new(NetId(0), tree));
    fixture.incumbent.total_pips = fixture
        .incumbent
        .routes
        .iter()
        .map(|route| route.pips().len())
        .sum();
    let mut constraints = RoutingConstraints::new();
    constraints.add_route(Arc::new(NetRoute::new(NetId(0), vec![locked_arc])));
    let before = fixture.incumbent.clone();
    let mut workspace = RoutingWorkspace::new(&fixture.device);

    let candidate = legal_net_route_eco_candidate_with_workspace(
        &fixture.design,
        &fixture.device,
        &fixture.incumbent,
        &constraints,
        &fixture.costs,
        NetId(0),
        LegalRouteEcoOptions::new(52),
        &mut workspace,
    )
    .unwrap();

    assert!(candidate.is_none());
    assert_eq!(fixture.incumbent, before);
    assert_workspace_restored_to_incumbent(&fixture, &workspace);
}

#[test]
fn legal_route_eco_never_changes_a_locked_target_arc() {
    let fixture = legal_polish_fixture();
    let incumbent = legal_polish_incumbent(&fixture);
    let before = incumbent.clone();
    let mut constraints = RoutingConstraints::new();
    constraints.add_route(incumbent.routes[0].clone());
    let mut workspace = RoutingWorkspace::new(&fixture.device);

    let candidate = legal_route_eco_candidate_with_workspace(
        &fixture.design,
        &fixture.device,
        &incumbent,
        &constraints,
        &fixture.costs,
        LegalRouteEcoConnection::new(NetId(0), fixture.target_sink),
        LegalRouteEcoOptions::new(52),
        &mut workspace,
    )
    .unwrap();

    assert!(candidate.is_none());
    assert_eq!(incumbent, before);
    assert!(
        incumbent
            .routes
            .iter()
            .zip(&before.routes)
            .all(|(current, original)| Arc::ptr_eq(current, original))
    );
}

#[test]
fn refused_cohorts_leave_the_workspace_with_the_incumbent() {
    let fixture = net_cohort_eco_fixture();
    let zero = LegalRouteEcoOptions::new(0);
    let positive = LegalRouteEcoOptions::new(52);
    for (net_ids, options, text) in [
        (vec![NetId(0)], zero, "legal nets route ECO estimate must be positive"),
        (Vec::new(), positive, "legal nets route ECO cohort is empty"),
        (vec![NetId(1), NetId(9)], positive, "legal nets route ECO net ID is outside the design"),
    ] {
        let mut workspace = RoutingWorkspace::new(&fixture.device);
        let error = legal_nets_route_eco_candidate_with_workspace(
            &fixture.design,
            &fixture.device,
            &fixture.incumbent,
            &RoutingConstraints::new(),
            &fixture.costs,
            &net_ids,
            options,
            &mut workspace,
        )
        .unwrap_err();
        assert!(error.message().contains(text));
        assert_workspace_matches_incumbent(&fixture.device, &fixture.incumbent, &workspace);
    }
}

#[test]
fn a_cohort_is_the_set_of_its_nets() {
    let fixture = net_cohort_eco_fixture();
    let run = |net_ids: &[NetId]| {
        let mut workspace = RoutingWorkspace::new(&fixture.device);
        legal_nets_route_eco_candidate_with_workspace(
            &fixture.design,
            &fixture.device,
            &fixture.incumbent,
            &RoutingConstraints::new(),
            &fixture.costs,
            net_ids,
            LegalRouteEcoOptions::new(52),
            &mut workspace,
        )
        .unwrap()
    };
    let both = run(&[NetId(0), NetId(1)]);
    assert!(both.is_some());
    assert_eq!(run(&[NetId(1), NetId(0), NetId(1)]), both);
    let mut workspace = RoutingWorkspace::new(&fixture.device);
    let single = legal_net_route_eco_candidate_with_workspace(
        &fixture.design,
        &fixture.device,
        &fixture.incumbent,
        &RoutingConstraints::new(),
        &fixture.costs,
        NetId(0),
        LegalRouteEcoOptions::new(52),
        &mut workspace,
    )
    .unwrap();
    assert_eq!(run(&[NetId(0)]), single);
}

#[test]
fn connection_requests_are_refused_by_cause() {
    let fixture = legal_polish_fixture();
    let incumbent = legal_polish_incumbent(&fixture);
    let ask = |connection: LegalRouteEcoConnection, tile_ps: u64| {
        let mut workspace = RoutingWorkspace::new(&fixture.device);
        legal_route_eco_candidate_with_workspace(
            &fixture.design,
            &fixture.device,
            &incumbent,
            &RoutingConstraints::new(),
            &fixture.costs,
            connection,
            LegalRouteEcoOptions::new(tile_ps),
            &mut workspace,
        )
        .unwrap_err()
        .message()
    };
    let known = LegalRouteEcoConnection::new(NetId(0), fixture.target_sink);
    assert!(ask(known, 0).contains("legal route ECO estimate must be positive"));
    assert!(
        ask(LegalRouteEcoConnection::new(NetId(9), fixture.target_sink), 52)
            .contains("legal route ECO net ID is outside the design")
    );
    assert!(
        ask(LegalRouteEcoConnection::new(NetId(1), fixture.target_sink), 52)
            .contains("is not on the selected net")
    );
}
