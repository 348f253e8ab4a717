use texo_pnr::bbox::{DetailedNetBoundingBox, DetailedNetBoundingBoxDelta};
use texo_pnr::demand_bins::bin_grid;
use texo_pnr::device::Device;
use texo_pnr::metrics::{maximum_window_occupancy, nearest_rank};
use texo_pnr::model::Point;
use texo_pnr::routing_constraints::RoutingConstraints;
use texo_pnr::routing_demand::{routing_capacity_map, RoutingChannelOrientation};

#[test]
fn legalization_metric_quantiles_use_nearest_rank() {
    let sorted = [0, 1, 2, 3, 4, 5, 6, 7, 8, 9];
    assert_eq!(nearest_rank(&sorted, 50), 4);
    assert_eq!(nearest_rank(&sorted, 95), 9);
    assert_eq!(nearest_rank(&[], 95), 0);
}

#[test]
fn legalization_metric_window_counts_boundary_points_once() {
    let points = [
        Point::new(0, 0),
        Point::new(1, 1),
        Point::new(2, 2),
        Point::new(3, 3),
        Point::new(3, 3),
    ];
    assert_eq!(maximum_window_occupancy(&points, 4, 4, 1), 2);
    assert_eq!(maximum_window_occupancy(&points, 4, 4, 3), 4);
    assert_eq!(maximum_window_occupancy(&points, 4, 4, 4), 5);
}

fn reference_cost(points: &[Point]) -> u64 {
    let minimum_x = points.iter().map(|point| point.x).min().unwrap();
    let maximum_x = points.iter().map(|point| point.x).max().unwrap();
    let minimum_y = points.iter().map(|point| point.y).min().unwrap();
    let maximum_y = points.iter().map(|point| point.y).max().unwrap();
    u64::from(maximum_x - minimum_x) + u64::from(maximum_y - minimum_y)
}

fn move_endpoints(
    delta: &mut DetailedNetBoundingBoxDelta,
    old: Point,
    new: Point,
    multiplicity: usize,
) {
    delta.x.remove(old.x, multiplicity);
    delta.x.add(new.x, multiplicity);
    delta.y.remove(old.y, multiplicity);
    delta.y.add(new.y, multiplicity);
}

#[test]
fn incremental_bbox_is_exact_for_endpoint_multiplicity_and_simultaneous_moves() {
    let before = [
        Point::new(0, 0),
        Point::new(0, 0),
        Point::new(0, 0),
        Point::new(2, 5),
        Point::new(9, 1),
        Point::new(9, 1),
        Point::new(4, 7),
    ];
    let after = [
        Point::new(0, 0),
        Point::new(12, 3),
        Point::new(12, 3),
        Point::new(2, 5),
        Point::new(2, 5),
        Point::new(9, 1),
        Point::new(0, 0),
    ];
    let mut bounding_box = DetailedNetBoundingBox::new();
    bounding_box.insert(Point::new(0, 0), 3);
    bounding_box.insert(Point::new(2, 5), 1);
    bounding_box.insert(Point::new(9, 1), 2);
    bounding_box.insert(Point::new(4, 7), 1);
    let mut delta = DetailedNetBoundingBoxDelta::new();
    move_endpoints(&mut delta, Point::new(0, 0), Point::new(12, 3), 2);
    move_endpoints(&mut delta, Point::new(9, 1), Point::new(2, 5), 1);
    move_endpoints(&mut delta, Point::new(4, 7), Point::new(0, 0), 1);

    assert_eq!(bounding_box.cost(), reference_cost(&before));
    assert_eq!(
        bounding_box.cost_after_delta(&delta),
        Some(reference_cost(&after))
    );
    bounding_box.apply_delta(&delta).unwrap();
    assert_eq!(bounding_box.cost(), reference_cost(&after));
    assert_eq!(bounding_box.x.counts.get(0), Some(&2));
    assert_eq!(bounding_box.x.counts.get(12), Some(&2));
    assert_eq!(bounding_box.y.counts.get(7), None);
}

#[test]
fn blocked_only_incident_pip_removes_channel_capacity() {
    let mut device = Device::new("capacity".to_string(), 3, 2).unwrap();
    let active_h = device
        .add_wire("R0C0/H02E0001".to_string(), Point::new(0, 0), 2)
        .unwrap();
    let blocked_h = device
        .add_wire("R0C1/H02E0001".to_string(), Point::new(1, 0), 3)
        .unwrap();
    let active_v = device
        .add_wire("R1C2/V06N0003".to_string(), Point::new(2, 1), 4)
        .unwrap();
    let endpoint_a = device.add_wire("R0C0/JA".to_string(), Point::new(0, 0), 1).unwrap();
    let endpoint_b = device.add_wire("R0C1/JB".to_string(), Point::new(1, 0), 1).unwrap();
    let endpoint_c = device.add_wire("R1C2/JC".to_string(), Point::new(2, 1), 1).unwrap();
    device.add_pip(active_h, endpoint_a, false, 1).unwrap();
    let blocked = device.add_pip(blocked_h, endpoint_b, false, 1).unwrap();
    device.add_pip(active_v, endpoint_c, false, 1).unwrap();
    let mut constraints = RoutingConstraints::new();
    constraints.block_pips(&[blocked]);

    let map = routing_capacity_map(&device, &constraints);
    assert_eq!(
        map.capacity(Point::new(0, 0), RoutingChannelOrientation::Horizontal),
        Some(2)
    );
    assert_eq!(
        map.capacity(Point::new(1, 0), RoutingChannelOrientation::Horizontal),
        Some(0)
    );
    assert_eq!(
        map.capacity(Point::new(2, 1), RoutingChannelOrientation::Vertical),
        Some(4)
    );
    assert_eq!(map.total_capacity(RoutingChannelOrientation::Horizontal), 2);
    assert_eq!(map.total_capacity(RoutingChannelOrientation::Vertical), 4);
}

#[test]
fn bins_tile_the_grid_row_by_row() {
    assert_eq!(
        bin_grid(5, 3, 2),
        [
            (Point::new(0, 0), Point::new(2, 2)),
            (Point::new(2, 0), Point::new(4, 2)),
            (Point::new(4, 0), Point::new(5, 2)),
            (Point::new(0, 2), Point::new(2, 3)),
            (Point::new(2, 2), Point::new(4, 3)),
            (Point::new(4, 2), Point::new(5, 3)),
        ]
    );
    assert_eq!(bin_grid(2, 1, 0).len(), 2);
    assert_eq!(bin_grid(2, 1, u32::MAX), [(Point::new(0, 0), Point::new(2, 1))]);
    for y in 0..3 {
        for x in 0..5 {
            let holding = bin_grid(5, 3, 2)
                .iter()
                .filter(|(from, to)| from.x <= x && x < to.x && from.y <= y && y < to.y)
                .count();
            assert_eq!(holding, 1);
        }
    }
}

#[test]
fn the_bins_hold_the_total_capacity_together() {
    let mut device = Device::new("bins".to_string(), 5, 3).unwrap();
    let sink = device.add_wire("R0C0/JA".to_string(), Point::new(0, 0), 1).unwrap();
    let mut expected = 0;
    for y in 0..3 {
        for x in 0..5 {
            let capacity = (1 + x + 5 * y) as u16;
            let wire = device
                .add_wire(format!("R{y}C{x}/H02E0001"), Point::new(x, y), capacity)
                .unwrap();
            device.add_pip(wire, sink, false, 1).unwrap();
            expected += u64::from(capacity);
        }
    }
    let map = routing_capacity_map(&device, &RoutingConstraints::new());
    assert_eq!(map.total_capacity(RoutingChannelOrientation::Horizontal), expected);
    for size in [0, 1, 2, 4, 9] {
        let mut together = 0;
        for (from, to) in bin_grid(5, 3, size) {
            for y in from.y..to.y {
                for x in from.x..to.x {
                    together += u64::from(
                        map.capacity(Point::new(x, y), RoutingChannelOrientation::Horizontal)
                            .unwrap(),
                    );
                }
            }
        }
        assert_eq!(together, expected);
    }
}
