//! The available rows of a unit that lie nearest to a tile.

use vstd::prelude::*;

use crate::candidates::bindings_in_range;
use crate::device::UnifiedGraph;
use crate::legality::row_is_legal;
use crate::model::{BelId, Point};
use crate::ordered::OrderedSet;
use crate::placement_constraints::PlacementConstraints;
use crate::placement_state::{row_is_free, PlacementState};
use crate::spatial::{
    begins_at, begins_within, choices_on_device, lemma_listed_ring, listed_before, ring_points,
    tile, SpatialChoiceIndex,
};
use crate::units::{row_fits, PlacementUnit};
use crate::usage_model::cells_in_range;

verus! {

/// Number of nearby rows after which the search goes no further.
pub const PLACEMENT_REFINEMENT_CANDIDATES: usize = 64;

/// The row is available and begins within the distance of the tile.
pub open spec fn available_within(
    graph: UnifiedGraph<'_>,
    constraints: &PlacementConstraints,
    occupied: Seq<bool>,
    placed: Seq<Option<BelId>>,
    unit: PlacementUnit,
    center: Point,
    distance: int,
    index: int,
) -> bool {
    &&& begins_within(unit.choices, graph.device, index, center, distance)
    &&& row_is_free(occupied, unit.choices.row(index))
    &&& row_is_legal(graph, constraints, placed, unit.cells@, unit.choices.row(index))
}

/// The set holds every available row within some distance, which is the least
/// at which there are enough of them, or the whole device.
pub open spec fn are_nearest(
    graph: UnifiedGraph<'_>,
    constraints: &PlacementConstraints,
    occupied: Seq<bool>,
    placed: Seq<Option<BelId>>,
    unit: PlacementUnit,
    center: Point,
    found: OrderedSet<usize>,
) -> bool {
    exists|distance: int|
        {
            &&& 0 <= distance < graph.device.width + graph.device.height
            &&& #[trigger] is_reach(
                graph,
                constraints,
                occupied,
                placed,
                unit,
                center,
                distance,
                found@,
            )
            &&& found.ordered().len() >= PLACEMENT_REFINEMENT_CANDIDATES || distance + 1
                >= graph.device.width + graph.device.height
            &&& forall|less: Set<usize>| #[trigger]
                is_reach(
                    graph,
                    constraints,
                    occupied,
                    placed,
                    unit,
                    center,
                    distance - 1,
                    less,
                ) ==> less.len() < PLACEMENT_REFINEMENT_CANDIDATES
        }
}

/// The set holds every available row within the distance.
pub open spec fn is_reach(
    graph: UnifiedGraph<'_>,
    constraints: &PlacementConstraints,
    occupied: Seq<bool>,
    placed: Seq<Option<BelId>>,
    unit: PlacementUnit,
    center: Point,
    distance: int,
    found: Set<usize>,
) -> bool {
    forall|i: usize| #[trigger]
        found.contains(i) <==> available_within(
            graph,
            constraints,
            occupied,
            placed,
            unit,
            center,
            distance,
            i as int,
        )
}

/// Adds the available rows that begin on one tile.
fn add_bucket(
    graph: &UnifiedGraph<'_>,
    constraints: &PlacementConstraints,
    unit: &PlacementUnit,
    bucket: &Vec<usize>,
    point: Point,
    state: &mut PlacementState,
    found: &mut OrderedSet<usize>,
)
    requires
        graph.wf(),
        constraints.wf(),
        bindings_in_range(*graph, constraints),
        unit.wf(*graph, constraints),
        old(state).wf(*graph, constraints),
        forall|k: int|
            0 <= k < unit.cells@.len() ==> old(state).placed@[(#[trigger] unit.cells@[k]).0 as int]
                is None,
        old(found).wf(),
        forall|i: usize| #[trigger]
            bucket@.contains(i) <==> begins_at(unit.choices, graph.device, i as int, point),
    ensures
        final(state).wf(*graph, constraints),
        final(state).placed == old(state).placed,
        final(state).occupied == old(state).occupied,
        final(found).wf(),
        forall|i: usize| #[trigger]
            final(found)@.contains(i) <==> old(found)@.contains(i) || (begins_at(
                unit.choices,
                graph.device,
                i as int,
                point,
            ) && row_is_free(old(state).occupied@, unit.choices.row(i as int)) && row_is_legal(
                *graph,
                constraints,
                old(state).placed@,
                unit.cells@,
                unit.choices.row(i as int),
            )),
{
    let ghost placed = state.placed@;
    let ghost flags = state.occupied@;
    let ghost before = found@;
    let mut at: usize = 0;
    while at < bucket.len()
        invariant
            at <= bucket@.len(),
            graph.wf(),
            constraints.wf(),
            bindings_in_range(*graph, constraints),
            unit.wf(*graph, constraints),
            state.wf(*graph, constraints),
            state.placed == old(state).placed,
            state.occupied == old(state).occupied,
            placed == state.placed@,
            flags == state.occupied@,
            forall|k: int|
                0 <= k < unit.cells@.len() ==> placed[(#[trigger] unit.cells@[k]).0 as int]
                    is None,
            found.wf(),
            forall|i: usize| #[trigger]
                bucket@.contains(i) <==> begins_at(unit.choices, graph.device, i as int, point),
            forall|i: usize| #[trigger]
                found@.contains(i) <==> before.contains(i) || (bucket@.take(at as int).contains(i)
                    && row_is_free(flags, unit.choices.row(i as int)) && row_is_legal(
                    *graph,
                    constraints,
                    placed,
                    unit.cells@,
                    unit.choices.row(i as int),
                )),
        decreases bucket@.len() - at,
    {
        let index: usize = bucket[at];
        assert(bucket@.contains(bucket@[at as int]));
        let row = unit.choices.assignment(index);
        proof {
            assert(row_fits(*graph, constraints, unit.cells@, unit.choices.row(index as int)));
            assert(cells_in_range(unit.cells@, graph.design.cells@.len() as int));
        }
        let ghost middle = found@;
        let suits = state.is_free(&row) && state.is_legal(graph, constraints, &unit.cells, &row);
        if suits {
            found.insert(index);
        }
        proof {
            let shorter = bucket@.take(at as int);
            let longer = bucket@.take(at + 1);
            assert(longer =~= shorter.push(index));
            assert forall|i: usize| #[trigger] found@.contains(i) <==> before.contains(i) || (
            longer.contains(i) && row_is_free(flags, unit.choices.row(i as int)) && row_is_legal(
                *graph,
                constraints,
                placed,
                unit.cells@,
                unit.choices.row(i as int),
            )) by {
                assert(longer[at as int] == index);
                if shorter.contains(i) {
                    let k = shorter.index_of(i);
                    assert(longer[k] == i);
                }
                if longer.contains(i) && i != index {
                    let k = longer.index_of(i);
                    assert(shorter[k] == i);
                }
                assert(middle.contains(i) <==> before.contains(i) || (shorter.contains(i)
                    && row_is_free(flags, unit.choices.row(i as int)) && row_is_legal(
                    *graph,
                    constraints,
                    placed,
                    unit.cells@,
                    unit.choices.row(i as int),
                )));
            }
        }
        at = at + 1;
    }
    assert(bucket@.take(at as int) =~= bucket@);
}

/// Adds the available rows at exactly one distance.
fn add_ring(
    graph: &UnifiedGraph<'_>,
    constraints: &PlacementConstraints,
    unit: &PlacementUnit,
    index: &SpatialChoiceIndex,
    center: Point,
    radius: u32,
    state: &mut PlacementState,
    found: &mut OrderedSet<usize>,
)
    requires
        graph.wf(),
        constraints.wf(),
        bindings_in_range(*graph, constraints),
        unit.wf(*graph, constraints),
        choices_on_device(unit.choices, graph.device),
        index.indexes(unit.choices, graph.device),
        old(state).wf(*graph, constraints),
        forall|k: int|
            0 <= k < unit.cells@.len() ==> old(state).placed@[(#[trigger] unit.cells@[k]).0 as int]
                is None,
        old(found).wf(),
        is_reach(
            *graph,
            constraints,
            old(state).occupied@,
            old(state).placed@,
            *unit,
            center,
            radius - 1,
            old(found)@,
        ),
    ensures
        final(state).wf(*graph, constraints),
        final(state).placed == old(state).placed,
        final(state).occupied == old(state).occupied,
        final(found).wf(),
        is_reach(
            *graph,
            constraints,
            old(state).occupied@,
            old(state).placed@,
            *unit,
            center,
            radius as int,
            final(found)@,
        ),
{
    let device = graph.device();
    let points = ring_points(center, radius, device);
    let ghost placed = state.placed@;
    let ghost flags = state.occupied@;
    let ghost before = found@;
    let mut at: usize = 0;
    while at < points.len()
        invariant
            at <= points@.len(),
            graph.wf(),
            device == graph.device,
            constraints.wf(),
            bindings_in_range(*graph, constraints),
            unit.wf(*graph, constraints),
            index.indexes(unit.choices, device),
            state.wf(*graph, constraints),
            state.placed == old(state).placed,
            state.occupied == old(state).occupied,
            placed == state.placed@,
            flags == state.occupied@,
            forall|k: int|
                0 <= k < unit.cells@.len() ==> placed[(#[trigger] unit.cells@[k]).0 as int]
                    is None,
            found.wf(),
            forall|p: Point| #[trigger]
                points@.contains(p) <==> device.holds(p) && p.distance(center) == radius,
            forall|i: usize| #[trigger]
                found@.contains(i) <==> before.contains(i) || (listed_before(
                    unit.choices,
                    device,
                    points@,
                    at as int,
                    i as int,
                ) && row_is_free(flags, unit.choices.row(i as int)) && row_is_legal(
                    *graph,
                    constraints,
                    placed,
                    unit.cells@,
                    unit.choices.row(i as int),
                )),
        decreases points@.len() - at,
    {
        let point = points[at];
        assert(points@.contains(point));
        let ghost middle = found@;
        let bucket = index.at(device, point);
        proof {
            assert forall|i: usize| #[trigger] bucket@.contains(i) <==> begins_at(
                unit.choices,
                device,
                i as int,
                point,
            ) by {
                assert(index.by_point@[tile(device, point)]@.contains(i) <==> begins_at(
                    unit.choices,
                    device,
                    i as int,
                    point,
                ));
            }
        }
        add_bucket(graph, constraints, unit, bucket, point, state, found);
        proof {
            assert forall|i: usize| #[trigger] found@.contains(i) <==> before.contains(i) || (
            listed_before(unit.choices, device, points@, at + 1, i as int) && row_is_free(
                flags,
                unit.choices.row(i as int),
            ) && row_is_legal(
                *graph,
                constraints,
                placed,
                unit.cells@,
                unit.choices.row(i as int),
            )) by {
                assert(middle.contains(i) <==> before.contains(i) || (listed_before(
                    unit.choices,
                    device,
                    points@,
                    at as int,
                    i as int,
                ) && row_is_free(flags, unit.choices.row(i as int)) && row_is_legal(
                    *graph,
                    constraints,
                    placed,
                    unit.cells@,
                    unit.choices.row(i as int),
                )));
                if listed_before(unit.choices, device, points@, at as int, i as int) {
                    let k = choose|k: int|
                        0 <= k < at && begins_at(
                            unit.choices,
                            device,
                            i as int,
                            #[trigger] points@[k],
                        );
                    assert(begins_at(unit.choices, device, i as int, points@[k]));
                }
                if begins_at(unit.choices, device, i as int, point) {
                    assert(begins_at(unit.choices, device, i as int, points@[at as int]));
                }
                if listed_before(unit.choices, device, points@, at + 1, i as int) {
                    let k = choose|k: int|
                        0 <= k < at + 1 && begins_at(
                            unit.choices,
                            device,
                            i as int,
                            #[trigger] points@[k],
                        );
                    if k < at {
                        assert(begins_at(unit.choices, device, i as int, points@[k]));
                    }
                }
            }
        }
        at = at + 1;
    }
    proof {
        assert forall|i: usize| #[trigger] found@.contains(i) <==> available_within(
            *graph,
            constraints,
            flags,
            placed,
            *unit,
            center,
            radius as int,
            i as int,
        ) by {
            lemma_listed_ring(unit.choices, device, center, radius as int, points@, i as int);
            assert(before.contains(i) <==> available_within(
                *graph,
                constraints,
                flags,
                placed,
                *unit,
                center,
                radius - 1,
                i as int,
            ));
        }
    }
}

/// Available rows nearest to a tile: ring after ring, until there are enough.
pub(crate) fn nearest_legal_assignments(
    graph: &UnifiedGraph<'_>,
    constraints: &PlacementConstraints,
    unit: &PlacementUnit,
    index: &SpatialChoiceIndex,
    target: Point,
    state: &mut PlacementState,
) -> (result: OrderedSet<usize>)
    requires
        graph.wf(),
        constraints.wf(),
        bindings_in_range(*graph, constraints),
        unit.wf(*graph, constraints),
        choices_on_device(unit.choices, graph.device),
        index.indexes(unit.choices, graph.device),
        graph.device.holds(target),
        old(state).wf(*graph, constraints),
        forall|k: int|
            0 <= k < unit.cells@.len() ==> old(state).placed@[(#[trigger] unit.cells@[k]).0 as int]
                is None,
    ensures
        final(state).wf(*graph, constraints),
        final(state).placed == old(state).placed,
        final(state).occupied == old(state).occupied,
        result.wf(),
        are_nearest(
            *graph,
            constraints,
            old(state).occupied@,
            old(state).placed@,
            *unit,
            target,
            result,
        ),
{
    let device = graph.device();
    let span: u64 = (device.width as u64) + (device.height as u64);
    proof {
        assert(2 <= span <= u32::MAX + 1) by (nonlinear_arith)
            requires
                span == device.width + device.height,
                device.width >= 1,
                device.height >= 1,
                device.width * device.height <= u32::MAX,
        ;
    }
    let ghost placed = state.placed@;
    let ghost flags = state.occupied@;
    let mut found: OrderedSet<usize> = OrderedSet::new();
    let mut radius: u64 = 0;
    proof {
        assert(is_reach(*graph, constraints, flags, placed, *unit, target, -1, found@)) by {
            assert forall|i: usize| #[trigger] found@.contains(i) <==> available_within(
                *graph,
                constraints,
                flags,
                placed,
                *unit,
                target,
                -1,
                i as int,
            ) by {}
        }
    }
    while radius < span && found.len() < PLACEMENT_REFINEMENT_CANDIDATES
        invariant
            radius <= span,
            2 <= span <= u32::MAX + 1,
            span == device.width + device.height,
            graph.wf(),
            device == graph.device,
            constraints.wf(),
            bindings_in_range(*graph, constraints),
            unit.wf(*graph, constraints),
            choices_on_device(unit.choices, device),
            index.indexes(unit.choices, device),
            device.holds(target),
            state.wf(*graph, constraints),
            state.placed == old(state).placed,
            state.occupied == old(state).occupied,
            placed == state.placed@,
            flags == state.occupied@,
            forall|k: int|
                0 <= k < unit.cells@.len() ==> placed[(#[trigger] unit.cells@[k]).0 as int]
                    is None,
            found.wf(),
            is_reach(*graph, constraints, flags, placed, *unit, target, radius - 1, found@),
            radius == 0 ==> found.ordered().len() == 0,
            radius > 0 ==> forall|less: Set<usize>| #[trigger]
                is_reach(
                    *graph,
                    constraints,
                    flags,
                    placed,
                    *unit,
                    target,
                    radius - 2,
                    less,
                ) ==> less.len() < PLACEMENT_REFINEMENT_CANDIDATES,
        decreases span - radius,
    {
        let ghost known = found;
        add_ring(
            graph,
            constraints,
            unit,
            index,
            target,
            radius as u32,
            state,
            &mut found,
        );
        proof {
            assert forall|less: Set<usize>| #[trigger]
                is_reach(
                    *graph,
                    constraints,
                    flags,
                    placed,
                    *unit,
                    target,
                    radius - 1,
                    less,
                ) implies less.len() < PLACEMENT_REFINEMENT_CANDIDATES by {
                assert forall|i: usize| less.contains(i) <==> known@.contains(i) by {
                    assert(less.contains(i) <==> available_within(
                        *graph,
                        constraints,
                        flags,
                        placed,
                        *unit,
                        target,
                        radius - 1,
                        i as int,
                    ));
                    assert(known@.contains(i) <==> available_within(
                        *graph,
                        constraints,
                        flags,
                        placed,
                        *unit,
                        target,
                        radius - 1,
                        i as int,
                    ));
                }
                assert(less =~= known@);
                known.size();
            }
        }
        radius = radius + 1;
    }
    proof {
        let distance = radius - 1;
        assert(is_reach(*graph, constraints, flags, placed, *unit, target, distance, found@));
        assert forall|less: Set<usize>| #[trigger]
            is_reach(
                *graph,
                constraints,
                flags,
                placed,
                *unit,
                target,
                distance - 1,
                less,
            ) implies less.len() < PLACEMENT_REFINEMENT_CANDIDATES by {
            assert(distance - 1 == radius - 2);
            assert(is_reach(
                *graph,
                constraints,
                flags,
                placed,
                *unit,
                target,
                radius - 2,
                less,
            ));
        }
    }
    found
}

} // verus!
