use texo_pnr::cost::{
    congestion_cost, div_ceil, hold_delay_bucket, routing_step_cost, routing_transition_cost,
    saturating_product, timing_tree_cost,
};
use texo_pnr::error::PnrError;
use texo_pnr::medians::{detailed_interval_median, weighted_median_coordinate, TimingPull};
use texo_pnr::metrics::nearest_rank;
use texo_pnr::model::{BelId, CellId, CellPinId, ModelError, NetId, Point, WireId};
use texo_pnr::net_span::Axis;
use texo_pnr::ordered::{OrderedMap, OrderedSet};
use texo_pnr::polish_queue::unloaded_arc_cost;
use texo_pnr::route::RouteArc;
use texo_pnr::routing_costs::{
    routing_arc_criticality, routing_criticality, routing_sink_minimum, RoutingCosts,
};

#[test]
fn quotients_round_up_and_products_saturate() {
    assert_eq!(div_ceil(7, 2), 4);
    assert_eq!(div_ceil(8, 2), 4);
    assert_eq!(div_ceil(0, 5), 0);
    assert_eq!(div_ceil(u64::MAX, 1), u64::MAX);
    assert_eq!(saturating_product(6, 7), 42);
    assert_eq!(saturating_product(u64::MAX, 2), u64::MAX);
}

#[test]
fn tree_cost_counts_begun_quanta_of_timed_arcs() {
    assert_eq!(timing_tree_cost(101, 64, 50), 3);
    assert_eq!(timing_tree_cost(100, 1, 50), 2);
    assert_eq!(timing_tree_cost(101, 0, 50), 0);
}

#[test]
fn step_cost_scales_congestion_to_the_quantum() {
    assert_eq!(routing_step_cost(120, 64, 2, 50), 5);
    assert_eq!(routing_step_cost(120, 64, 2, 10), 22);
    assert_eq!(routing_step_cost(0, 64, 0, 50), 1);
    assert_eq!(routing_step_cost(900, 0, 3, 50), 4);
    assert!(routing_step_cost(120, 64, 2, 50) <= routing_step_cost(151, 64, 2, 50));
    assert!(routing_step_cost(120, 64, 2, 50) <= routing_step_cost(120, 64, 3, 50));
}

#[test]
fn transition_costs_sum_to_the_cost_of_the_whole_arrival() {
    let arrivals = [0_u64, 30, 75, 130, 131];
    let total = arrivals
        .windows(2)
        .map(|pair| routing_transition_cost(pair[0], pair[1], 64, 0, 50))
        .sum::<u64>();
    assert_eq!(total, timing_tree_cost(131, 64, 50));
    assert_eq!(total, 3);
    assert_eq!(routing_transition_cost(0, 30, 0, 2, 50), 3);
}

#[test]
fn negotiated_price_adds_history_and_weighted_overuse() {
    assert_eq!(congestion_cost(0, 1, 7, 4), 7);
    assert_eq!(congestion_cost(1, 1, 7, 4), 11);
    assert_eq!(congestion_cost(3, 1, 0, 4096), 12_288);
    assert_eq!(congestion_cost(u16::MAX, 1, 0, 1), 65_534);
}

#[test]
fn hold_buckets_meet_at_the_minimum() {
    let reached = hold_delay_bucket(500, 500);
    assert_eq!(hold_delay_bucket(501, 500), reached);
    assert!(hold_delay_bucket(0, 500) < reached);
    assert_eq!(hold_delay_bucket(0, 500), 0);
}

#[test]
fn unloaded_cost_is_delay_and_hop_bias() {
    let arc = RouteArc {
        sink: Some(CellPinId(1)),
        wires: vec![WireId(0), WireId(1), WireId(2)],
        pips: vec![texo_pnr::model::PipId(0), texo_pnr::model::PipId(1)],
    };
    let mut costs = RoutingCosts::new(vec![120, 75], OrderedMap::new());
    assert_eq!(unloaded_arc_cost(NetId(0), &arc, &costs, 64), 4);
    assert_eq!(unloaded_arc_cost(NetId(0), &arc, &costs, 32), 6);
    assert_eq!(unloaded_arc_cost(NetId(0), &arc, &costs, 0), 2);
    costs.set_detailed_timing_nets(OrderedSet::from_slice(&[NetId(0)]));
    costs.set_detailed_delay_quantum_ps(5);
    assert_eq!(unloaded_arc_cost(NetId(0), &arc, &costs, 64), 39);
    assert_eq!(unloaded_arc_cost(NetId(1), &arc, &costs, 64), 4);
}

#[test]
fn arc_criticality_falls_back_to_its_net() {
    let mut nets = OrderedMap::new();
    nets.insert(NetId(3), 20);
    let mut costs = RoutingCosts::new(Vec::new(), nets);
    let mut sinks = OrderedMap::new();
    sinks.insert(texo_pnr::model::Connection { net: NetId(3), sink: CellPinId(5) }, 60);
    costs.set_sink_criticalities(sinks);
    let mut holds = OrderedMap::new();
    holds.insert(texo_pnr::model::Connection { net: NetId(3), sink: CellPinId(5) }, 700);
    costs.set_sink_min_delays_ps(holds);
    assert_eq!(routing_criticality(Some(&costs), NetId(3)), 20);
    assert_eq!(routing_criticality(Some(&costs), NetId(4)), 0);
    assert_eq!(routing_criticality(None, NetId(3)), 0);
    assert_eq!(routing_arc_criticality(Some(&costs), NetId(3), CellPinId(5)), 60);
    assert_eq!(routing_arc_criticality(Some(&costs), NetId(3), CellPinId(6)), 20);
    assert_eq!(routing_sink_minimum(Some(&costs), NetId(3), CellPinId(5)), 700);
    assert_eq!(routing_sink_minimum(Some(&costs), NetId(3), CellPinId(6)), 0);
}

#[test]
fn interval_median_is_the_nearest_coordinate_of_the_middle() {
    let intervals = [(0_i64, 4_i64), (2, 6)];
    assert_eq!(detailed_interval_median(&intervals, 9, 10), Some(4));
    assert_eq!(detailed_interval_median(&intervals, 0, 10), Some(2));
    assert_eq!(detailed_interval_median(&intervals, 3, 10), Some(3));
    assert_eq!(detailed_interval_median(&intervals, 9, 3), Some(2));
    assert_eq!(detailed_interval_median(&[], 9, 10), None);
    let gap = |at: i64| {
        intervals
            .iter()
            .map(|&(low, high)| (low - at).max(at - high).max(0))
            .sum::<i64>()
    };
    for other in 0..10 {
        assert!(gap(4) <= gap(other));
    }
}

#[test]
fn weighted_median_splits_the_weight() {
    let pulls = vec![
        TimingPull { point: Point::new(1, 9), weight: 1 },
        TimingPull { point: Point::new(5, 2), weight: 3 },
        TimingPull { point: Point::new(8, 4), weight: 1 },
    ];
    assert_eq!(weighted_median_coordinate(&pulls, Axis::Column), Some(5));
    assert_eq!(weighted_median_coordinate(&pulls, Axis::Row), Some(2));
    assert_eq!(weighted_median_coordinate(&Vec::new(), Axis::Row), None);
}

#[test]
fn nearest_rank_covers_its_share_of_the_values() {
    let sorted = [10, 20, 30, 40];
    assert_eq!(nearest_rank(&sorted, 50), 20);
    assert_eq!(nearest_rank(&sorted, 51), 30);
    assert_eq!(nearest_rank(&sorted, 100), 40);
    for percentile in 1..=100 {
        let value = nearest_rank(&sorted, percentile);
        let covered = sorted.iter().filter(|&&item| item <= value).count();
        assert!(covered * 100 >= percentile * sorted.len());
    }
}

#[test]
fn ordered_tables_keep_each_key_once() {
    let mut set = OrderedSet::from_slice(&[NetId(4), NetId(1), NetId(4), NetId(2)]);
    assert_eq!(set.as_slice(), [NetId(1), NetId(2), NetId(4)]);
    assert!(!set.insert(NetId(2)));
    assert!(set.remove(NetId(1)));
    assert_eq!(set.as_slice(), [NetId(2), NetId(4)]);
    let mut map = OrderedMap::new();
    map.insert(NetId(2), 7_u64);
    map.insert(NetId(1), 8);
    map.insert(NetId(2), 9);
    assert_eq!(map.keys(), [NetId(1), NetId(2)]);
    assert_eq!(map.get(NetId(2)), Some(&9));
    assert_eq!(map.remove(NetId(2)), Some(9));
    assert_eq!(map.get(NetId(2)), None);
}

#[test]
fn every_failure_names_its_object() {
    let reason = || "why".to_string();
    let cases = [
        (
            PnrError::Model(ModelError::UnknownWire(WireId(7))),
            "invalid problem graph: unknown wire 7",
        ),
        (
            PnrError::NoBel { cell: "alu".to_string() },
            "no compatible free BEL for cell `alu`",
        ),
        (
            PnrError::InvalidPlacementConstraint { group: 2, reason: reason() },
            "invalid placement constraint group 2: why",
        ),
        (
            PnrError::InvalidPinBinding { pin: CellPinId(3), bel: BelId(4), reason: reason() },
            "invalid physical pin binding for pin 3 on BEL 4: why",
        ),
        (
            PnrError::InvalidPinNameBinding {
                pin: CellPinId(3),
                name: "A1".to_string(),
                reason: reason(),
            },
            "invalid physical pin-name binding for pin 3 as `A1`: why",
        ),
        (
            PnrError::InvalidRoutingConstraint { net: NetId(12), reason: reason() },
            "invalid routing constraint for net 12: why",
        ),
        (
            PnrError::InvalidRoutingRestriction { reason: reason() },
            "invalid routing restriction: why",
        ),
        (
            PnrError::InvalidRoutingCosts { reason: reason() },
            "invalid routing costs: why",
        ),
        (PnrError::InvalidPlacement { reason: reason() }, "invalid placement: why"),
        (
            PnrError::MissingPlacement { cell: CellId(10) },
            "placement is missing cell ID 10",
        ),
        (
            PnrError::Unroutable {
                net: "n".to_string(),
                driver: "a".to_string(),
                sink: "b".to_string(),
            },
            "net `n` is unroutable from a to b",
        ),
        (
            PnrError::CongestionNotResolved {
                iterations: 32,
                overused_wires: 2,
                overused_pips: 1,
            },
            "routing congestion remains after 32 iterations: 2 overused wires, 1 overused PIPs",
        ),
        (
            PnrError::RouteIsNotTree { net: NetId(0), wires: 4, pips: 4 },
            "route for net 0 is not a tree: 4 wires, 4 PIPs",
        ),
    ];
    for (error, text) in cases {
        assert_eq!(error.message(), text);
    }
}
