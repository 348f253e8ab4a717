//! Refinements of one start agree.

use vstd::prelude::*;

use crate::device::UnifiedGraph;
use crate::error::PnrError;
use crate::finish::all_placed;
use crate::full_bindings::lemma_finished_same;
use crate::model::BelId;
use crate::neighbors::{are_neighbors, PlacementNeighbor, PlacementWeights};
use crate::place::{is_refined_placement, is_start, limit_above_peak_gives_the_same};
use crate::placement::Placement;
use crate::placement_constraints::PlacementConstraints;
use crate::refine_passes::refines;
use crate::refine_unique::{lemma_refines_unique, lemma_units_unique};
use crate::refiner::{limited_outcome, PlacementRefiner};
use crate::standing::units_stand;
use crate::unit_list::are_units;
use crate::units::PlacementUnit;

verus! {

/// Two refinements of one start under one limit come to the same placement with
/// the same peak.
pub proof fn refining_one_start_gives_one_placement(
    graph: UnifiedGraph<'_>,
    constraints: &PlacementConstraints,
    known: &Vec<PlacementUnit>,
    weights: PlacementWeights<'_>,
    limit: Option<usize>,
    start: Seq<BelId>,
    a: (Placement, int),
    b: (Placement, int),
)
    requires
        graph.wf(),
        are_units(graph, constraints, known@),
        is_refined_placement(graph, constraints, weights, limit, Some(start), a.0, a.1),
        is_refined_placement(graph, constraints, weights, limit, Some(start), b.0, b.1),
    ensures
        a.0.same(&b.0),
        a.1 == b.1,
{
    let (units, lists, placed) = choose|
        units: Seq<PlacementUnit>,
        lists: Seq<Vec<PlacementNeighbor>>,
        placed: Seq<Option<BelId>>,
    |
        {
            &&& #[trigger] are_units(graph, constraints, units)
            &&& are_neighbors(graph.design, weights, lists)
            &&& units_stand(units, placed)
            &&& is_start(graph, constraints, weights, units, lists, Some(start), placed)
            &&& #[trigger] refines(
                graph,
                constraints,
                units,
                lists,
                limit,
                placed,
                all_placed(a.0.bindings@),
                a.1,
            )
        };
    let (others, tables, slots) = choose|
        units: Seq<PlacementUnit>,
        lists: Seq<Vec<PlacementNeighbor>>,
        placed: Seq<Option<BelId>>,
    |
        {
            &&& #[trigger] are_units(graph, constraints, units)
            &&& are_neighbors(graph.design, weights, lists)
            &&& units_stand(units, placed)
            &&& is_start(graph, constraints, weights, units, lists, Some(start), placed)
            &&& #[trigger] refines(
                graph,
                constraints,
                units,
                lists,
                limit,
                placed,
                all_placed(b.0.bindings@),
                b.1,
            )
        };
    lemma_units_unique(graph, constraints, units, known@);
    assert(known.len() == known@.len());
    assert forall|c: int| 0 <= c < lists.len() implies (#[trigger] lists[c])@ == tables[c]@ by {
        assert(tables[c]@ == tables[c]@);
    }
    lemma_refines_unique(
        graph,
        constraints,
        units,
        others,
        lists,
        tables,
        limit,
        placed,
        (all_placed(a.0.bindings@), a.1),
        (all_placed(b.0.bindings@), b.1),
    );
    let x = a.0.bindings@;
    let y = b.0.bindings@;
    assert(all_placed(x).len() == x.len());
    assert(all_placed(y).len() == y.len());
    assert forall|c: int| 0 <= c < x.len() implies x[c] == y[c] by {
        assert(all_placed(x)[c] == Some(x[c]));
        assert(all_placed(y)[c] == Some(y[c]));
    }
    assert(x =~= y);
    lemma_finished_same(graph, constraints, x, a.0, b.0);
}

/// Where a limited refinement moved fewer units than its limit allows, every call
/// with another limit above that number succeeds too, with the same placement and
/// the same peak.
pub proof fn every_limit_above_the_peak_gives_the_same(
    refiner: PlacementRefiner<'_>,
    start: Placement,
    weights: PlacementWeights<'_>,
    limit: usize,
    other: usize,
    placement: Placement,
    peak: usize,
    result: Result<(Placement, usize), PnrError>,
)
    requires
        refiner.wf(),
        limited_outcome(refiner, start, weights, limit, Ok((placement, peak))),
        peak < limit,
        peak < other,
        limited_outcome(refiner, start, weights, other, result),
    ensures
        result matches Ok(pair) && pair.0.same(&placement) && pair.1 == peak,
{
    limit_above_peak_gives_the_same(
        refiner.graph,
        refiner.constraints,
        weights,
        limit,
        other,
        Some(start.bindings@),
        placement,
        peak as int,
    );
    if let Ok(pair) = result {
        refining_one_start_gives_one_placement(
            refiner.graph,
            refiner.constraints,
            &refiner.units,
            weights,
            Some(other),
            start.bindings@,
            (pair.0, pair.1 as int),
            (placement, peak as int),
        );
    }
}

} // verus!
