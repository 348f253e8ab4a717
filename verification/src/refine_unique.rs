//! A refinement comes to one placement.

use vstd::prelude::*;

use crate::candidates::can_hold;
use crate::device::UnifiedGraph;
use crate::families::same_rows;
use crate::model::{BelId, CellId, Point};
use crate::nearest::{
    are_nearest, available_within, is_reach, PLACEMENT_REFINEMENT_CANDIDATES,
};
use crate::neighbors::PlacementNeighbor;
use crate::ordered::{
    increasing, lemma_increasing_is_canonical, lemma_sorted_unique, OrderedKey, OrderedSet,
};
use crate::placement_constraints::PlacementConstraints;
use crate::placement_state::{is_taken, marks_taken};
use crate::refine::{
    choice_cost, is_cheapest, is_refined_choice, pull_center, refine_step, unit_moment, Moment,
};
use crate::refine_passes::{
    are_passes, edges_of, goes_on, is_offer, is_pass, is_pass_at, is_refine_order, is_spent,
    moved_in, order_key, refines, RefineOrder, RefinePass, MAX_PLACEMENT_REFINEMENT_PASSES,
};
use crate::row_cost::row_cost_upto;
use crate::search_unique::lemma_same_members;
use crate::standing::stands_on;
use crate::unit_list::{are_units, is_covered};
use crate::units::{row_fits, PlacementChoices, PlacementUnit};
use crate::usage_model::without_cells;

verus! {

/// The lists hold the same edges.
pub open spec fn same_lists(
    a: Seq<Vec<PlacementNeighbor>>,
    b: Seq<Vec<PlacementNeighbor>>,
) -> bool {
    &&& a.len() == b.len()
    &&& forall|c: int| 0 <= c < a.len() ==> (#[trigger] a[c])@ == b[c]@
}

/// Both units place the same cells on the same rows.
pub open spec fn same_unit(a: PlacementUnit, b: PlacementUnit) -> bool {
    a.cells@ == b.cells@ && same_rows(a.choices, b.choices)
}

/// The units are the same, one by one.
pub open spec fn same_units(a: Seq<PlacementUnit>, b: Seq<PlacementUnit>) -> bool {
    &&& a.len() == b.len()
    &&& forall|u: int| 0 <= u < a.len() ==> same_unit(#[trigger] a[u], b[u])
}

/// The cells of the unit have lists.
spec fn cells_listed(cells: Seq<CellId>, count: int) -> bool {
    forall|k: int| 0 <= k < cells.len() ==> (#[trigger] cells[k]).0 < count
}

/// Moments depend on the edges alone.
proof fn lemma_same_moment(
    count: int,
    cells: Seq<CellId>,
    device: &crate::device::Device,
    a: Seq<Vec<PlacementNeighbor>>,
    b: Seq<Vec<PlacementNeighbor>>,
    placed: Seq<Option<BelId>>,
    moment: Moment,
)
    requires
        same_lists(a, b),
        cells_listed(cells, a.len() as int),
        count <= cells.len(),
    ensures
        unit_moment(count, cells, device, a, placed, moment) == unit_moment(
            count,
            cells,
            device,
            b,
            placed,
            moment,
        ),
    decreases count,
{
    if count > 0 {
        lemma_same_moment(count - 1, cells, device, a, b, placed, moment);
        assert(cells[count - 1].0 < a.len());
        assert(a[cells[count - 1].0 as int]@ == b[cells[count - 1].0 as int]@);
    }
}

/// Costs depend on the edges alone.
proof fn lemma_same_cost(
    count: int,
    cells: Seq<CellId>,
    row: Seq<BelId>,
    device: &crate::device::Device,
    a: Seq<Vec<PlacementNeighbor>>,
    b: Seq<Vec<PlacementNeighbor>>,
    placed: Seq<Option<BelId>>,
)
    requires
        same_lists(a, b),
        cells_listed(cells, a.len() as int),
        count <= cells.len(),
    ensures
        row_cost_upto(count, cells, row, device, a, placed) == row_cost_upto(
            count,
            cells,
            row,
            device,
            b,
            placed,
        ),
    decreases count,
{
    if count > 0 {
        lemma_same_cost(count - 1, cells, row, device, a, b, placed);
        assert(cells[count - 1].0 < a.len());
        assert(a[cells[count - 1].0 as int]@ == b[cells[count - 1].0 as int]@);
    }
}

/// Joined edges depend on the lists alone.
proof fn lemma_same_edges(
    cells: Seq<CellId>,
    a: Seq<Vec<PlacementNeighbor>>,
    b: Seq<Vec<PlacementNeighbor>>,
    count: int,
)
    requires
        same_lists(a, b),
        cells_listed(cells, a.len() as int),
        count <= cells.len(),
    ensures
        edges_of(cells, a, count) == edges_of(cells, b, count),
    decreases count,
{
    if count > 0 {
        lemma_same_edges(cells, a, b, count - 1);
        assert(cells[count - 1].0 < a.len());
        assert(a[cells[count - 1].0 as int]@ == b[cells[count - 1].0 as int]@);
    }
}

/// The same placement marks the same BELs.
proof fn lemma_marks_unique(a: Seq<bool>, b: Seq<bool>, placed: Seq<Option<BelId>>, count: int)
    requires
        a.len() == count,
        b.len() == count,
        count <= usize::MAX,
        marks_taken(a, placed),
        marks_taken(b, placed),
    ensures
        a == b,
{
    assert forall|i: int| 0 <= i < count implies a[i] == b[i] by {
        let bel = BelId(i as usize);
        assert(a[bel.0 as int] == is_taken(placed, bel));
        assert(b[bel.0 as int] == is_taken(placed, bel));
    }
    assert(a =~= b);
}

/// Rows that are available for one unit are so for the same unit.
proof fn lemma_same_available(
    graph: UnifiedGraph<'_>,
    constraints: &PlacementConstraints,
    occupied: Seq<bool>,
    placed: Seq<Option<BelId>>,
    a: PlacementUnit,
    b: PlacementUnit,
    center: Point,
    distance: int,
    index: int,
)
    requires
        same_unit(a, b),
    ensures
        available_within(graph, constraints, occupied, placed, a, center, distance, index)
            == available_within(
            graph,
            constraints,
            occupied,
            placed,
            b,
            center,
            distance,
            index,
        ),
{
    if 0 <= index < a.choices.count() {
        assert(a.choices.row(index) == b.choices.row(index));
    }
}

/// The nearest rows of a smaller reach are all.
proof fn lemma_nearest_least(
    graph: UnifiedGraph<'_>,
    constraints: &PlacementConstraints,
    occupied: Seq<bool>,
    placed: Seq<Option<BelId>>,
    unit: PlacementUnit,
    center: Point,
    near: int,
    far: int,
    a: OrderedSet<usize>,
    b: OrderedSet<usize>,
)
    requires
        0 <= near < far < graph.device.width + graph.device.height,
        a.wf(),
        b.wf(),
        is_reach(graph, constraints, occupied, placed, unit, center, near, a@),
        is_reach(graph, constraints, occupied, placed, unit, center, far, b@),
        forall|less: Set<usize>| #[trigger]
            is_reach(graph, constraints, occupied, placed, unit, center, far - 1, less)
                ==> less.len() < PLACEMENT_REFINEMENT_CANDIDATES,
    ensures
        a.ordered().len() < PLACEMENT_REFINEMENT_CANDIDATES,
{
    let less = Set::new(
        |i: usize|
            available_within(
                graph,
                constraints,
                occupied,
                placed,
                unit,
                center,
                far - 1,
                i as int,
            ),
    );
    assert(is_reach(graph, constraints, occupied, placed, unit, center, far - 1, less));
    a.size();
    b.size();
    assert forall|i: usize| less.contains(i) implies b@.contains(i) by {
        assert(available_within(
            graph,
            constraints,
            occupied,
            placed,
            unit,
            center,
            far,
            i as int,
        ));
    }
    vstd::set_lib::lemma_len_subset(less, b@);
    assert forall|i: usize| a@.contains(i) implies less.contains(i) by {
        assert(available_within(
            graph,
            constraints,
            occupied,
            placed,
            unit,
            center,
            near,
            i as int,
        ));
    }
    vstd::set_lib::lemma_len_subset(a@, less);
}

/// The nearest rows are determined.
proof fn lemma_nearest_unique(
    graph: UnifiedGraph<'_>,
    constraints: &PlacementConstraints,
    occupied: Seq<bool>,
    placed: Seq<Option<BelId>>,
    unit: PlacementUnit,
    center: Point,
    a: OrderedSet<usize>,
    b: OrderedSet<usize>,
)
    requires
        a.wf(),
        b.wf(),
        are_nearest(graph, constraints, occupied, placed, unit, center, a),
        are_nearest(graph, constraints, occupied, placed, unit, center, b),
    ensures
        a.ordered() == b.ordered(),
{
    let d = choose|distance: int|
        {
            &&& 0 <= distance < graph.device.width + graph.device.height
            &&& #[trigger] is_reach(
                graph,
                constraints,
                occupied,
                placed,
                unit,
                center,
                distance,
                a@,
            )
            &&& a.ordered().len() >= PLACEMENT_REFINEMENT_CANDIDATES || distance + 1
                >= graph.device.width + graph.device.height
            &&& forall|less: Set<usize>| #[trigger]
                is_reach(
                    graph,
                    constraints,
                    occupied,
                    placed,
                    unit,
                    center,
                    distance - 1,
                    less,
                ) ==> less.len() < PLACEMENT_REFINEMENT_CANDIDATES
        };
    let e = choose|distance: int|
        {
            &&& 0 <= distance < graph.device.width + graph.device.height
            &&& #[trigger] is_reach(
                graph,
                constraints,
                occupied,
                placed,
                unit,
                center,
                distance,
                b@,
            )
            &&& b.ordered().len() >= PLACEMENT_REFINEMENT_CANDIDATES || distance + 1
                >= graph.device.width + graph.device.height
            &&& forall|less: Set<usize>| #[trigger]
                is_reach(
                    graph,
                    constraints,
                    occupied,
                    placed,
                    unit,
                    center,
                    distance - 1,
                    less,
                ) ==> less.len() < PLACEMENT_REFINEMENT_CANDIDATES
        };
    if d < e {
        lemma_nearest_least(
            graph,
            constraints,
            occupied,
            placed,
            unit,
            center,
            d,
            e,
            a,
            b,
        );
    } else if e < d {
        lemma_nearest_least(
            graph,
            constraints,
            occupied,
            placed,
            unit,
            center,
            e,
            d,
            b,
            a,
        );
    }
    assert forall|i: usize| a@.contains(i) == b@.contains(i) by {
        assert(a@.contains(i) <==> available_within(
            graph,
            constraints,
            occupied,
            placed,
            unit,
            center,
            d,
            i as int,
        ));
        assert(b@.contains(i) <==> available_within(
            graph,
            constraints,
            occupied,
            placed,
            unit,
            center,
            e,
            i as int,
        ));
    }
    assert(a@ =~= b@);
    lemma_same_members(&a, &b);
}

/// What is nearest for one unit is so for the same unit.
proof fn lemma_same_nearest(
    graph: UnifiedGraph<'_>,
    constraints: &PlacementConstraints,
    occupied: Seq<bool>,
    placed: Seq<Option<BelId>>,
    a: PlacementUnit,
    b: PlacementUnit,
    center: Point,
    found: OrderedSet<usize>,
)
    requires
        same_unit(a, b),
        are_nearest(graph, constraints, occupied, placed, a, center, found),
    ensures
        are_nearest(graph, constraints, occupied, placed, b, center, found),
{
    assert forall|distance: int, set: Set<usize>|
        is_reach(graph, constraints, occupied, placed, a, center, distance, set)
            == #[trigger] is_reach(graph, constraints, occupied, placed, b, center, distance, set) by {
        assert forall|i: usize|
            available_within(graph, constraints, occupied, placed, a, center, distance, i as int)
                == #[trigger] available_within(
                graph,
                constraints,
                occupied,
                placed,
                b,
                center,
                distance,
                i as int,
            ) by {
            lemma_same_available(
                graph,
                constraints,
                occupied,
                placed,
                a,
                b,
                center,
                distance,
                i as int,
            );
        }
    }
    let d = choose|distance: int|
        {
            &&& 0 <= distance < graph.device.width + graph.device.height
            &&& #[trigger] is_reach(
                graph,
                constraints,
                occupied,
                placed,
                a,
                center,
                distance,
                found@,
            )
            &&& found.ordered().len() >= PLACEMENT_REFINEMENT_CANDIDATES || distance + 1
                >= graph.device.width + graph.device.height
            &&& forall|less: Set<usize>| #[trigger]
                is_reach(
                    graph,
                    constraints,
                    occupied,
                    placed,
                    a,
                    center,
                    distance - 1,
                    less,
                ) ==> less.len() < PLACEMENT_REFINEMENT_CANDIDATES
        };
    assert(is_reach(graph, constraints, occupied, placed, b, center, d, found@));
    assert forall|less: Set<usize>| #[trigger]
        is_reach(graph, constraints, occupied, placed, b, center, d - 1, less) implies less.len()
        < PLACEMENT_REFINEMENT_CANDIDATES by {
        assert(is_reach(graph, constraints, occupied, placed, a, center, d - 1, less));
    }
}

/// The same row of the same unit has one cost.
proof fn lemma_same_choice_cost(
    graph: UnifiedGraph<'_>,
    a: Seq<Vec<PlacementNeighbor>>,
    b: Seq<Vec<PlacementNeighbor>>,
    placed: Seq<Option<BelId>>,
    x: PlacementUnit,
    y: PlacementUnit,
    i: int,
    j: int,
)
    requires
        same_lists(a, b),
        x.cells@ == y.cells@,
        cells_listed(x.cells@, a.len() as int),
        x.choices.row(i) == y.choices.row(j),
    ensures
        choice_cost(graph, a, placed, x, i) == choice_cost(graph, b, placed, y, j),
{
    lemma_same_cost(
        x.cells@.len() as int,
        x.cells@,
        x.choices.row(i),
        graph.device,
        a,
        b,
        placed,
    );
}

/// Every nearest row is a row of the unit.
proof fn lemma_nearest_range(
    graph: UnifiedGraph<'_>,
    constraints: &PlacementConstraints,
    occupied: Seq<bool>,
    placed: Seq<Option<BelId>>,
    unit: PlacementUnit,
    center: Point,
    found: OrderedSet<usize>,
)
    requires
        are_nearest(graph, constraints, occupied, placed, unit, center, found),
    ensures
        forall|k: int|
            0 <= k < found.ordered().len() ==> (#[trigger] found.ordered()[k])
                < unit.choices.count(),
{
    let list = found.ordered();
    let d = choose|distance: int| #[trigger]
        is_reach(graph, constraints, occupied, placed, unit, center, distance, found@);
    assert forall|k: int| 0 <= k < list.len() implies (#[trigger] list[k])
        < unit.choices.count() by {
        assert(list.contains(list[k]));
        found.membership(list[k]);
        assert(available_within(
            graph,
            constraints,
            occupied,
            placed,
            unit,
            center,
            d,
            list[k] as int,
        ));
    }
}

/// One row is the cheapest.
proof fn lemma_cheapest_unique(
    graph: UnifiedGraph<'_>,
    a: Seq<Vec<PlacementNeighbor>>,
    b: Seq<Vec<PlacementNeighbor>>,
    placed: Seq<Option<BelId>>,
    x: PlacementUnit,
    y: PlacementUnit,
    f: OrderedSet<usize>,
    g: OrderedSet<usize>,
    i: int,
    j: int,
)
    requires
        same_lists(a, b),
        same_unit(x, y),
        cells_listed(x.cells@, a.len() as int),
        f.ordered() == g.ordered(),
        forall|k: int|
            0 <= k < f.ordered().len() ==> (#[trigger] f.ordered()[k]) < x.choices.count(),
        is_cheapest(graph, a, placed, x, f, i),
        is_cheapest(graph, b, placed, y, g, j),
    ensures
        i == j,
        0 <= i < x.choices.count(),
{
    let list = f.ordered();
    let at = choose|at: int|
        {
            &&& 0 <= at < list.len()
            &&& at < PLACEMENT_REFINEMENT_CANDIDATES
            &&& #[trigger] list[at] == i
            &&& forall|other: int|
                0 <= other < list.len() && other < PLACEMENT_REFINEMENT_CANDIDATES ==> {
                    let mine = choice_cost(graph, a, placed, x, i);
                    let theirs = choice_cost(graph, a, placed, x, (#[trigger] list[other]) as int);
                    mine < theirs || (mine == theirs && at <= other)
                }
        };
    let to = choose|at: int|
        {
            &&& 0 <= at < list.len()
            &&& at < PLACEMENT_REFINEMENT_CANDIDATES
            &&& #[trigger] list[at] == j
            &&& forall|other: int|
                0 <= other < list.len() && other < PLACEMENT_REFINEMENT_CANDIDATES ==> {
                    let mine = choice_cost(graph, b, placed, y, j);
                    let theirs = choice_cost(graph, b, placed, y, (#[trigger] list[other]) as int);
                    mine < theirs || (mine == theirs && at <= other)
                }
        };
    assert(list[at] < x.choices.count() && list[to] < x.choices.count());
    assert(x.choices.row(i) == y.choices.row(i));
    assert(x.choices.row(j) == y.choices.row(j));
    lemma_same_choice_cost(graph, a, b, placed, x, y, i, i);
    lemma_same_choice_cost(graph, a, b, placed, x, y, j, j);
    assert(list[to] == j);
    assert(list[at] == i);
    assert(at == to);
}

/// A unit has one refined choice.
proof fn lemma_choice_unique(
    graph: UnifiedGraph<'_>,
    constraints: &PlacementConstraints,
    a: Seq<Vec<PlacementNeighbor>>,
    b: Seq<Vec<PlacementNeighbor>>,
    occupied: Seq<bool>,
    placed: Seq<Option<BelId>>,
    x: PlacementUnit,
    y: PlacementUnit,
    first: Option<int>,
    second: Option<int>,
)
    requires
        same_lists(a, b),
        same_unit(x, y),
        cells_listed(x.cells@, a.len() as int),
        is_refined_choice(graph, constraints, a, occupied, placed, x, first),
        is_refined_choice(graph, constraints, b, occupied, placed, y, second),
    ensures
        first == second,
        first matches Some(i) ==> 0 <= i < x.choices.count(),
{
    let count = x.cells@.len() as int;
    lemma_same_moment(count, x.cells@, graph.device, a, b, placed, Moment::Weight);
    lemma_same_moment(count, x.cells@, graph.device, a, b, placed, Moment::Column);
    lemma_same_moment(count, x.cells@, graph.device, a, b, placed, Moment::Row);
    let center = pull_center(x.cells@, graph.device, a, placed);
    assert(center == pull_center(y.cells@, graph.device, b, placed));
    if let Some(target) = center {
        let f = choose|found: OrderedSet<usize>|
            {
                &&& found.wf()
                &&& #[trigger] are_nearest(
                    graph,
                    constraints,
                    occupied,
                    placed,
                    x,
                    target,
                    found,
                )
                &&& match first {
                    None => found.ordered().len() == 0,
                    Some(index) => is_cheapest(graph, a, placed, x, found, index),
                }
            };
        let g = choose|found: OrderedSet<usize>|
            {
                &&& found.wf()
                &&& #[trigger] are_nearest(
                    graph,
                    constraints,
                    occupied,
                    placed,
                    y,
                    target,
                    found,
                )
                &&& match second {
                    None => found.ordered().len() == 0,
                    Some(index) => is_cheapest(graph, b, placed, y, found, index),
                }
            };
        assert(same_unit(y, x)) by {
            assert forall|i: int| 0 <= i < y.choices.count() implies #[trigger] y.choices.row(i)
                == x.choices.row(i) by {
                assert(x.choices.row(i) == y.choices.row(i));
            }
        }
        lemma_same_nearest(graph, constraints, occupied, placed, y, x, target, g);
        lemma_nearest_unique(graph, constraints, occupied, placed, x, target, f, g);
        lemma_nearest_range(graph, constraints, occupied, placed, x, target, f);
        match (first, second) {
            (Some(i), Some(j)) => {
                lemma_cheapest_unique(graph, a, b, placed, x, y, f, g, i, j);
            },
            (Some(i), None) => {
                assert(f.ordered().len() > 0);
            },
            (None, Some(j)) => {
                assert(g.ordered().len() > 0);
            },
            (None, None) => {},
        }
    }
}

/// A unit is offered one move.
proof fn lemma_step_unique(
    graph: UnifiedGraph<'_>,
    constraints: &PlacementConstraints,
    a: Seq<Vec<PlacementNeighbor>>,
    b: Seq<Vec<PlacementNeighbor>>,
    x: PlacementUnit,
    y: PlacementUnit,
    before: Seq<Option<BelId>>,
    first: (Seq<Option<BelId>>, bool),
    second: (Seq<Option<BelId>>, bool),
)
    requires
        graph.wf(),
        same_lists(a, b),
        same_unit(x, y),
        x.wf(graph, constraints),
        y.wf(graph, constraints),
        a.len() == graph.design.cells@.len(),
        refine_step(graph, constraints, a, x, before, first.0, first.1),
        refine_step(graph, constraints, b, y, before, second.0, second.1),
    ensures
        first == second,
{
    let empty = without_cells(before, x.cells@);
    if x.choices.count() > 1 {
        let (c, o, p) = choose|current: int, occupied: Seq<bool>, choice: Option<int>|
            {
                &&& #[trigger] stands_on(x, before, current)
                &&& occupied.len() == graph.device.bels@.len()
                &&& marks_taken(occupied, empty)
                &&& #[trigger] is_refined_choice(
                    graph,
                    constraints,
                    a,
                    occupied,
                    empty,
                    x,
                    choice,
                )
                &&& first.1 == (choice matches Some(index) && choice_cost(
                    graph,
                    a,
                    empty,
                    x,
                    index,
                ) < choice_cost(graph, a, empty, x, current))
                &&& first.0 == if first.1 {
                    crate::usage_model::with_row(empty, x.cells@, x.choices.row(choice->0))
                } else {
                    before
                }
            };
        let (d, q, r) = choose|current: int, occupied: Seq<bool>, choice: Option<int>|
            {
                &&& #[trigger] stands_on(y, before, current)
                &&& occupied.len() == graph.device.bels@.len()
                &&& marks_taken(occupied, empty)
                &&& #[trigger] is_refined_choice(
                    graph,
                    constraints,
                    b,
                    occupied,
                    empty,
                    y,
                    choice,
                )
                &&& second.1 == (choice matches Some(index) && choice_cost(
                    graph,
                    b,
                    empty,
                    y,
                    index,
                ) < choice_cost(graph, b, empty, y, current))
                &&& second.0 == if second.1 {
                    crate::usage_model::with_row(empty, y.cells@, y.choices.row(choice->0))
                } else {
                    before
                }
            };
        assert(graph.device.bels.len() == graph.device.bels@.len());
        assert(cells_listed(x.cells@, a.len() as int));
        lemma_marks_unique(o, q, empty, graph.device.bels@.len() as int);
        lemma_choice_unique(graph, constraints, a, b, o, empty, x, y, p, r);
        assert(row_fits(graph, constraints, x.cells@, x.choices.row(c)));
        assert(row_fits(graph, constraints, y.cells@, y.choices.row(d)));
        assert(x.choices.row(c) =~= y.choices.row(d)) by {
            assert forall|k: int| 0 <= k < x.cells@.len() implies x.choices.row(c)[k]
                == y.choices.row(d)[k] by {
                assert(before[x.cells@[k].0 as int] == Some(x.choices.row(c)[k]));
                assert(before[y.cells@[k].0 as int] == Some(y.choices.row(d)[k]));
            }
        }
        lemma_same_choice_cost(graph, a, b, empty, x, y, c, d);
        if let Some(i) = p {
            assert(x.choices.row(i) == y.choices.row(i));
            lemma_same_choice_cost(graph, a, b, empty, x, y, i, i);
        }
    }
}

/// Units are offered moves in one order.
proof fn lemma_order_unique(
    graph: UnifiedGraph<'_>,
    constraints: &PlacementConstraints,
    units: Seq<PlacementUnit>,
    others: Seq<PlacementUnit>,
    a: Seq<Vec<PlacementNeighbor>>,
    b: Seq<Vec<PlacementNeighbor>>,
    x: Seq<RefineOrder>,
    y: Seq<RefineOrder>,
)
    requires
        are_units(graph, constraints, units),
        same_units(units, others),
        same_lists(a, b),
        a.len() == graph.design.cells@.len(),
        is_refine_order(units, a, x),
        is_refine_order(others, b, y),
    ensures
        x == y,
{
    let p = Seq::new(units.len(), |u: int| order_key(units, a, u));
    let q = Seq::new(others.len(), |u: int| order_key(others, b, u));
    assert forall|u: int| 0 <= u < p.len() implies p[u] == q[u] by {
        assert(same_unit(units[u], others[u]));
        assert(units[u].wf(graph, constraints));
        assert(cells_listed(units[u].cells@, a.len() as int));
        lemma_same_edges(units[u].cells@, a, b, units[u].cells@.len() as int);
    }
    assert(p =~= q);
    let key = |e: RefineOrder| e.rank();
    assert forall|i: int, j: int| 0 <= i < j < x.len() implies key(#[trigger] x[i]) <= key(
        #[trigger] x[j],
    ) by {
        assert(x[i].rank() <= x[j].rank());
    }
    assert forall|i: int, j: int| 0 <= i < j < y.len() implies key(#[trigger] y[i]) <= key(
        #[trigger] y[j],
    ) by {
        assert(y[i].rank() <= y[j].rank());
    }
    assert forall|i: int, j: int|
        0 <= i < x.len() && 0 <= j < x.len() && key(#[trigger] x[i]) == key(
            #[trigger] x[j],
        ) implies x[i] == x[j] by {
        RefineOrder::rank_is_injective(x[i], x[j]);
    }
    lemma_sorted_unique(x, y, key);
}

/// What a refinement works on.
ghost struct Setting<'a> {
    graph: UnifiedGraph<'a>,
    constraints: &'a PlacementConstraints,
    units: Seq<PlacementUnit>,
    lists: Seq<Vec<PlacementNeighbor>>,
    order: Seq<RefineOrder>,
    limit: Option<usize>,
}

/// Both settings are the same, but for where their tables stand.
spec fn same_setting(a: Setting<'_>, b: Setting<'_>) -> bool {
    &&& a.graph == b.graph
    &&& a.graph.wf()
    &&& a.constraints == b.constraints
    &&& are_units(a.graph, a.constraints, a.units)
    &&& are_units(b.graph, b.constraints, b.units)
    &&& same_units(a.units, b.units)
    &&& same_lists(a.lists, b.lists)
    &&& a.lists.len() == a.graph.design.cells@.len()
    &&& a.order == b.order
    &&& forall|i: int| 0 <= i < a.order.len() ==> (#[trigger] a.order[i]).index < a.units.len()
    &&& a.limit == b.limit
}

/// The pass of the setting.
spec fn passes_so(setting: Setting<'_>, earlier: Set<usize>, pass: RefinePass) -> bool {
    is_pass(
        setting.graph,
        setting.constraints,
        setting.units,
        setting.lists,
        setting.order,
        setting.limit,
        earlier,
        pass,
    )
}

/// The offers of a pass lead to one placement each.
proof fn lemma_offers_unique(
    a: Setting<'_>,
    b: Setting<'_>,
    earlier: Set<usize>,
    x: RefinePass,
    y: RefinePass,
    count: int,
)
    requires
        same_setting(a, b),
        passes_so(a, earlier, x),
        passes_so(b, earlier, y),
        x.0[0] == y.0[0],
        0 <= count <= x.1.len(),
        count <= y.1.len(),
    ensures
        x.0[count] == y.0[count],
        x.1.take(count) == y.1.take(count),
    decreases count,
{
    if count > 0 {
        let at = count - 1;
        lemma_offers_unique(a, b, earlier, x, y, at);
        assert(is_offer(a.graph, a.constraints, a.units, a.lists, a.order, x, at));
        assert(is_offer(b.graph, b.constraints, b.units, b.lists, b.order, y, at));
        let u = a.order[at].index as int;
        assert(a.order[at].index < a.units.len());
        assert(same_unit(a.units[u], b.units[u]));
        assert(a.units[u].wf(a.graph, a.constraints));
        assert(b.units[u].wf(b.graph, b.constraints));
        lemma_step_unique(
            a.graph,
            a.constraints,
            a.lists,
            b.lists,
            a.units[u],
            b.units[u],
            x.0[at],
            (x.0[at + 1], x.1[at]),
            (y.0[at + 1], y.1[at]),
        );
        assert(x.1.take(count) =~= x.1.take(at).push(x.1[at]));
        assert(y.1.take(count) =~= y.1.take(at).push(y.1[at]));
    } else {
        assert(x.1.take(0) =~= y.1.take(0));
    }
}

/// No pass is longer than the same pass.
proof fn lemma_pass_length(
    a: Setting<'_>,
    b: Setting<'_>,
    earlier: Set<usize>,
    x: RefinePass,
    y: RefinePass,
)
    requires
        same_setting(a, b),
        passes_so(a, earlier, x),
        passes_so(b, earlier, y),
        x.0[0] == y.0[0],
    ensures
        x.1.len() >= y.1.len(),
{
    let count = x.1.len() as int;
    if count < y.1.len() {
        lemma_offers_unique(a, b, earlier, x, y, count);
        assert(x.1.take(count) =~= x.1);
        assert(!is_spent(b.order, b.limit, earlier, y.1, count));
    }
}

/// A pass comes to one end.
proof fn lemma_pass_unique(
    a: Setting<'_>,
    b: Setting<'_>,
    earlier: Set<usize>,
    x: RefinePass,
    y: RefinePass,
)
    requires
        same_setting(a, b),
        same_setting(b, a),
        passes_so(a, earlier, x),
        passes_so(b, earlier, y),
        x.0[0] == y.0[0],
    ensures
        x.0.last() == y.0.last(),
        x.1 == y.1,
{
    lemma_pass_length(a, b, earlier, x, y);
    lemma_pass_length(b, a, earlier, y, x);
    let count = x.1.len() as int;
    lemma_offers_unique(a, b, earlier, x, y, count);
    assert(x.1.take(count) =~= x.1);
    assert(y.1.take(count) =~= y.1);
}

/// The passes of the setting.
spec fn refines_so(setting: Setting<'_>, passes: Seq<RefinePass>) -> bool {
    are_passes(
        setting.graph,
        setting.constraints,
        setting.units,
        setting.lists,
        setting.order,
        setting.limit,
        passes,
    )
}

/// The first passes end in one way each.
proof fn lemma_passes_unique(
    a: Setting<'_>,
    b: Setting<'_>,
    x: Seq<RefinePass>,
    y: Seq<RefinePass>,
    count: int,
)
    requires
        same_setting(a, b),
        same_setting(b, a),
        refines_so(a, x),
        refines_so(b, y),
        0 < x.len(),
        0 < y.len(),
        x[0].0[0] == y[0].0[0],
        0 <= count < x.len(),
        count < y.len(),
    ensures
        x[count].0[0] == y[count].0[0],
        x[count].0.last() == y[count].0.last(),
        x[count].1 == y[count].1,
        moved_in(a.order, x.take(count)) == moved_in(b.order, y.take(count)),
        moved_in(a.order, x.take(count + 1)) == moved_in(b.order, y.take(count + 1)),
    decreases count,
{
    assert(is_pass_at(
        a.graph,
        a.constraints,
        a.units,
        a.lists,
        a.order,
        a.limit,
        x,
        count,
    ));
    assert(is_pass_at(
        b.graph,
        b.constraints,
        b.units,
        b.lists,
        b.order,
        b.limit,
        y,
        count,
    ));
    if count > 0 {
        lemma_passes_unique(a, b, x, y, count - 1);
    } else {
        assert(x.take(0).len() == 0);
        assert(y.take(0).len() == 0);
    }
    let earlier = moved_in(a.order, x.take(count));
    lemma_pass_unique(a, b, earlier, x[count], y[count]);
    assert(x.take(count + 1).drop_last() =~= x.take(count));
    assert(y.take(count + 1).drop_last() =~= y.take(count));
    assert(x.take(count + 1).last() == x[count]);
    assert(y.take(count + 1).last() == y[count]);
}

/// Refinement stops after the same pass.
proof fn lemma_same_stop(
    a: Setting<'_>,
    b: Setting<'_>,
    x: Seq<RefinePass>,
    y: Seq<RefinePass>,
)
    requires
        same_setting(a, b),
        same_setting(b, a),
        refines_so(a, x),
        refines_so(b, y),
        0 < x.len() <= MAX_PLACEMENT_REFINEMENT_PASSES,
        0 < y.len() <= MAX_PLACEMENT_REFINEMENT_PASSES,
        x[0].0[0] == y[0].0[0],
        goes_on(a.order, a.limit, x) ==> x.len() == MAX_PLACEMENT_REFINEMENT_PASSES,
    ensures
        y.len() <= x.len(),
{
    let count = x.len() as int;
    if count < y.len() {
        lemma_passes_unique(a, b, x, y, count - 1);
        assert(is_pass_at(
            b.graph,
            b.constraints,
            b.units,
            b.lists,
            b.order,
            b.limit,
            y,
            count,
        ));
        assert(x.take(count) =~= x);
        assert(y.take(count).last() == y[count - 1]);
    }
}

/// A refinement of one start under one limit comes to one placement with one peak.
pub proof fn lemma_refines_unique(
    graph: UnifiedGraph<'_>,
    constraints: &PlacementConstraints,
    units: Seq<PlacementUnit>,
    others: Seq<PlacementUnit>,
    lists: Seq<Vec<PlacementNeighbor>>,
    tables: Seq<Vec<PlacementNeighbor>>,
    limit: Option<usize>,
    before: Seq<Option<BelId>>,
    first: (Seq<Option<BelId>>, int),
    second: (Seq<Option<BelId>>, int),
)
    requires
        graph.wf(),
        units.len() <= usize::MAX,
        are_units(graph, constraints, units),
        are_units(graph, constraints, others),
        same_lists(lists, tables),
        lists.len() == graph.design.cells@.len(),
        refines(graph, constraints, units, lists, limit, before, first.0, first.1),
        refines(graph, constraints, others, tables, limit, before, second.0, second.1),
    ensures
        first == second,
{
    lemma_units_unique(graph, constraints, units, others);
    lemma_units_unique(graph, constraints, others, units);
    let (order, x) = choose|order: Seq<RefineOrder>, passes: Seq<RefinePass>|
        {
            &&& is_refine_order(units, lists, order)
            &&& #[trigger] are_passes(
                graph,
                constraints,
                units,
                lists,
                order,
                limit,
                passes,
            )
            &&& 0 < passes.len() <= MAX_PLACEMENT_REFINEMENT_PASSES
            &&& passes[0].0[0] == before
            &&& passes.last().0.last() == first.0
            &&& goes_on(order, limit, passes) ==> passes.len() == MAX_PLACEMENT_REFINEMENT_PASSES
            &&& first.1 == moved_in(order, passes).len()
        };
    let (turns, y) = choose|order: Seq<RefineOrder>, passes: Seq<RefinePass>|
        {
            &&& is_refine_order(others, tables, order)
            &&& #[trigger] are_passes(
                graph,
                constraints,
                others,
                tables,
                order,
                limit,
                passes,
            )
            &&& 0 < passes.len() <= MAX_PLACEMENT_REFINEMENT_PASSES
            &&& passes[0].0[0] == before
            &&& passes.last().0.last() == second.0
            &&& goes_on(order, limit, passes) ==> passes.len() == MAX_PLACEMENT_REFINEMENT_PASSES
            &&& second.1 == moved_in(order, passes).len()
        };
    lemma_order_unique(graph, constraints, units, others, lists, tables, order, turns);
    let a = Setting { graph, constraints, units, lists, order, limit };
    let b = Setting { graph, constraints, units: others, lists: tables, order, limit };
    assert forall|i: int| 0 <= i < order.len() implies (#[trigger] order[i]).index
        < units.len() by {
        crate::refine_passes::lemma_order_names_units(units, lists, order, i);
    }
    assert(same_lists(tables, lists)) by {
        assert forall|c: int| 0 <= c < tables.len() implies (#[trigger] tables[c])@ == lists[c]@ by {
            assert(lists[c]@ == tables[c]@);
        }
    }
    assert(same_setting(a, b));
    assert(same_setting(b, a));
    lemma_same_stop(a, b, x, y);
    lemma_same_stop(b, a, y, x);
    let last = x.len() - 1;
    lemma_passes_unique(a, b, x, y, last);
    assert(x.take(last + 1) =~= x);
    assert(y.take(last + 1) =~= y);
}

/// The cells of the units behind the groups.
spec fn single_cells(units: Seq<PlacementUnit>, from: int) -> Seq<CellId> {
    Seq::new((units.len() - from) as nat, |i: int| units[from + i].cells@[0])
}

/// A cell of one list of single cells stands in the other.
proof fn lemma_single_member(
    graph: UnifiedGraph<'_>,
    constraints: &PlacementConstraints,
    a: Seq<PlacementUnit>,
    b: Seq<PlacementUnit>,
    cell: CellId,
)
    requires
        are_units(graph, constraints, a),
        are_units(graph, constraints, b),
        single_cells(a, constraints.groups@.len() as int).contains(cell),
    ensures
        single_cells(b, constraints.groups@.len() as int).contains(cell),
{
    let from = constraints.groups@.len() as int;
    let i = single_cells(a, from).index_of(cell);
    let u = from + i;
    assert(a[u].choices is SingleCell);
    assert(a[u].wf(graph, constraints));
    assert(a[u].cells@[0] == cell);
    assert(is_covered(b, cell));
    let v = choose|v: int| 0 <= v < b.len() && (#[trigger] b[v]).cells@.contains(cell);
    let k = b[v].cells@.index_of(cell);
    if v < from {
        assert(a[v].cells@ == constraints.groups@[v].cells@);
        assert(b[v].cells@ == constraints.groups@[v].cells@);
        assert(a[v].cells@[k] == a[u].cells@[0]);
    } else {
        assert(b[v].choices is SingleCell);
        assert(b[v].wf(graph, constraints));
        assert(single_cells(b, from)[v - from] == cell);
    }
}

/// A placement problem has one list of units.
pub proof fn lemma_units_unique(
    graph: UnifiedGraph<'_>,
    constraints: &PlacementConstraints,
    a: Seq<PlacementUnit>,
    b: Seq<PlacementUnit>,
)
    requires
        are_units(graph, constraints, a),
        are_units(graph, constraints, b),
    ensures
        same_units(a, b),
{
    let from = constraints.groups@.len() as int;
    let x = single_cells(a, from);
    let y = single_cells(b, from);
    assert(increasing(x)) by {
        assert forall|i: int, j: int| 0 <= i < j < x.len() implies (#[trigger] x[i]).rank() < (
        #[trigger] x[j]).rank() by {
            assert(a[from + i].cells@[0].0 < a[from + j].cells@[0].0);
        }
    }
    assert(increasing(y)) by {
        assert forall|i: int, j: int| 0 <= i < j < y.len() implies (#[trigger] y[i]).rank() < (
        #[trigger] y[j]).rank() by {
            assert(b[from + i].cells@[0].0 < b[from + j].cells@[0].0);
        }
    }
    assert forall|c: CellId| x.to_set().contains(c) == y.to_set().contains(c) by {
        if x.contains(c) {
            lemma_single_member(graph, constraints, a, b, c);
        }
        if y.contains(c) {
            lemma_single_member(graph, constraints, b, a, c);
        }
    }
    assert(x.to_set() =~= y.to_set());
    lemma_increasing_is_canonical(x, y);
    assert(a.len() == b.len()) by {
        assert(x.len() == y.len());
    }
    assert forall|u: int| 0 <= u < a.len() implies same_unit(#[trigger] a[u], b[u]) by {
        if u < from {
            assert(a[u].cells@ == constraints.groups@[u].cells@);
            assert(b[u].cells@ == constraints.groups@[u].cells@);
        } else {
            assert(a[u].choices is SingleCell && b[u].choices is SingleCell);
            assert(a[u].wf(graph, constraints) && b[u].wf(graph, constraints));
            assert(x[u - from] == y[u - from]);
            assert(a[u].cells@ =~= b[u].cells@);
            if let (PlacementChoices::SingleCell(p), PlacementChoices::SingleCell(q)) = (
                a[u].choices,
                b[u].choices,
            ) {
                let cell = a[u].cells@[0];
                assert forall|bel: BelId| p@.to_set().contains(bel) == q@.to_set().contains(
                    bel,
                ) by {
                    assert(p@.contains(bel) <==> can_hold(graph, constraints, cell, bel));
                    assert(q@.contains(bel) <==> can_hold(graph, constraints, cell, bel));
                }
                assert(p@.to_set() =~= q@.to_set());
                lemma_increasing_is_canonical(p@, q@);
            }
        }
    }
}

} // verus!
