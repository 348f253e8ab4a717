//! Passes of local refinement over all units.

use std::sync::Arc;

use vstd::prelude::*;

use crate::candidates::bindings_in_range;
use crate::cost::clip_u64;
use crate::device::UnifiedGraph;
use crate::model::{BelId, CellId};
use crate::neighbors::{neighbors_in_range, PlacementNeighbor};
use crate::ordered::{lemma_counterpart, nondecreasing, sort_keys, OrderedKey};
use crate::placement_constraints::PlacementConstraints;
use crate::placement_state::PlacementState;
use crate::refine::{all_indexed, choice_cost, is_refined_choice, refine_step, refine_unit};
use crate::spatial::SpatialChoiceIndex;
use crate::standing::{stands_on, units_stand};
use crate::unit_list::units_disjoint;
use crate::units::PlacementUnit;
use crate::usage_model::{cells_in_range, lemma_without_cells, with_row, without_cells};

verus! {

/// Passes after which refinement stops.
pub const MAX_PLACEMENT_REFINEMENT_PASSES: usize = 4;

/// Place of a unit in the order of refinement: the heaviest edge first, then
/// the heaviest sum of edges, then by its first cell.
#[derive(Clone, Copy, Debug, PartialEq, Eq, Structural)]
pub struct RefineOrder {
    /// Weight of the heaviest edge.
    pub maximum: u64,
    /// Sum of the weights of all edges.
    pub total: u64,
    /// First cell.
    pub cell: CellId,
    /// Position among the units.
    pub index: usize,
}

impl OrderedKey for RefineOrder {
    open spec fn rank(self) -> int {
        (((u64::MAX - self.maximum) * 0x1_0000_0000_0000_0000 + (u64::MAX - self.total))
            * 0x1_0000_0000_0000_0000 + self.cell.0) * 0x1_0000_0000_0000_0000 + self.index
    }

    proof fn rank_is_injective(a: Self, b: Self) {
    }

    fn precedes(self, other: Self) -> (result: bool) {
        if self.maximum != other.maximum {
            self.maximum > other.maximum
        } else if self.total != other.total {
            self.total > other.total
        } else if self.cell.0 != other.cell.0 {
            self.cell.0 < other.cell.0
        } else {
            self.index < other.index
        }
    }
}

/// Weight of the heaviest edge of a list.
pub open spec fn heaviest(list: Seq<PlacementNeighbor>) -> u64
    decreases list.len(),
{
    if list.len() == 0 {
        0
    } else {
        let rest = heaviest(list.drop_last());
        if list.last().weight > rest {
            list.last().weight
        } else {
            rest
        }
    }
}

/// Sum of the weights of a list.
pub open spec fn weight_sum(list: Seq<PlacementNeighbor>) -> int
    decreases list.len(),
{
    if list.len() == 0 {
        0
    } else {
        weight_sum(list.drop_last()) + list.last().weight
    }
}

/// All edges of the first cells.
pub open spec fn edges_of(
    cells: Seq<CellId>,
    neighbors: Seq<Vec<PlacementNeighbor>>,
    count: int,
) -> Seq<PlacementNeighbor>
    decreases count,
{
    if count <= 0 {
        Seq::empty()
    } else {
        edges_of(cells, neighbors, count - 1) + neighbors[cells[count - 1].0 as int]@
    }
}

/// Place of a unit in the order of refinement.
pub open spec fn order_key(
    units: Seq<PlacementUnit>,
    neighbors: Seq<Vec<PlacementNeighbor>>,
    unit: int,
) -> RefineOrder {
    let cells = units[unit].cells@;
    let edges = edges_of(cells, neighbors, cells.len() as int);
    RefineOrder {
        maximum: heaviest(edges),
        total: clip_u64(weight_sum(edges)) as u64,
        cell: cells[0],
        index: unit as usize,
    }
}

/// The order holds every unit once, the heaviest first.
pub open spec fn is_refine_order(
    units: Seq<PlacementUnit>,
    neighbors: Seq<Vec<PlacementNeighbor>>,
    order: Seq<RefineOrder>,
) -> bool {
    &&& nondecreasing(order)
    &&& order.len() == units.len()
    &&& order.to_multiset() == Seq::new(
        units.len(),
        |u: int| order_key(units, neighbors, u),
    ).to_multiset()
}

/// The order names units.
pub proof fn lemma_order_names_units(
    units: Seq<PlacementUnit>,
    neighbors: Seq<Vec<PlacementNeighbor>>,
    order: Seq<RefineOrder>,
    at: int,
)
    requires
        units.len() <= usize::MAX,
        is_refine_order(units, neighbors, order),
        0 <= at < order.len(),
    ensures
        order[at].index < units.len(),
{
    let keys = Seq::new(units.len(), |u: int| order_key(units, neighbors, u));
    let k = lemma_counterpart(order, keys, at);
}

/// Sums and maxima of joined lists.
proof fn lemma_joined(a: Seq<PlacementNeighbor>, b: Seq<PlacementNeighbor>, edge: PlacementNeighbor)
    ensures
        heaviest(a + b.push(edge)) == if edge.weight > heaviest(a + b) {
            edge.weight
        } else {
            heaviest(a + b)
        },
        weight_sum(a + b.push(edge)) == weight_sum(a + b) + edge.weight,
{
    assert((a + b.push(edge)).drop_last() =~= a + b);
    assert((a + b.push(edge)).last() == edge);
}

/// Sums of weights are not negative.
proof fn lemma_weight_sum(list: Seq<PlacementNeighbor>)
    ensures
        weight_sum(list) >= 0,
    decreases list.len(),
{
    if list.len() > 0 {
        lemma_weight_sum(list.drop_last());
    }
}

/// Units in the order in which they are offered moves.
pub(crate) fn refinement_order(
    units: &Vec<PlacementUnit>,
    neighbors: &Vec<Vec<PlacementNeighbor>>,
    Ghost(graph): Ghost<UnifiedGraph<'_>>,
    Ghost(constraints): Ghost<&PlacementConstraints>,
) -> (result: Vec<RefineOrder>)
    requires
        neighbors_in_range(neighbors@, graph.design.cells@.len() as int),
        forall|u: int|
            0 <= u < units@.len() ==> (#[trigger] units@[u]).wf(graph, constraints),
    ensures
        is_refine_order(units@, neighbors@, result@),
{
    let mut order: Vec<RefineOrder> = Vec::new();
    let mut index: usize = 0;
    while index < units.len()
        invariant
            index <= units@.len(),
            neighbors_in_range(neighbors@, graph.design.cells@.len() as int),
            forall|u: int|
                0 <= u < units@.len() ==> (#[trigger] units@[u]).wf(graph, constraints),
            order@.len() == index,
            forall|u: int|
                0 <= u < index ==> #[trigger] order@[u] == order_key(units@, neighbors@, u),
        decreases units@.len() - index,
    {
        let unit = &units[index];
        assert(units@[index as int].wf(graph, constraints));
        let mut maximum: u64 = 0;
        let mut total: u64 = 0;
        let mut at: usize = 0;
        while at < unit.cells.len()
            invariant
                at <= unit.cells@.len(),
                neighbors_in_range(neighbors@, graph.design.cells@.len() as int),
                unit.wf(graph, constraints),
                maximum == heaviest(edges_of(unit.cells@, neighbors@, at as int)),
                total == clip_u64(weight_sum(edges_of(unit.cells@, neighbors@, at as int))),
            decreases unit.cells@.len() - at,
        {
            assert(unit.cells@[at as int].0 < graph.design.cells@.len());
            let list = &neighbors[unit.cells[at].0];
            let ghost before = edges_of(unit.cells@, neighbors@, at as int);
            let mut edge: usize = 0;
            proof {
                assert(before + list@.take(0) =~= before);
            }
            while edge < list.len()
                invariant
                    edge <= list@.len(),
                    maximum == heaviest(before + list@.take(edge as int)),
                    total == clip_u64(weight_sum(before + list@.take(edge as int))),
                decreases list@.len() - edge,
            {
                let weight: u64 = list[edge].weight;
                proof {
                    lemma_joined(before, list@.take(edge as int), list@[edge as int]);
                    lemma_weight_sum(before + list@.take(edge as int));
                    assert(list@.take(edge + 1) =~= list@.take(edge as int).push(
                        list@[edge as int],
                    ));
                }
                if weight > maximum {
                    maximum = weight;
                }
                total = total.saturating_add(weight);
                edge = edge + 1;
            }
            proof {
                assert(list@.take(edge as int) =~= list@);
                assert(edges_of(unit.cells@, neighbors@, at + 1) == before + list@);
            }
            at = at + 1;
        }
        order.push(RefineOrder { maximum, total, cell: unit.cells[0], index });
        index = index + 1;
    }
    proof {
        assert(order@ =~= Seq::new(units@.len(), |u: int| order_key(units@, neighbors@, u)));
    }
    sort_keys(&mut order);
    order
}

/// Number of moves that were made.
pub open spec fn moves_made(moves: Seq<bool>) -> int
    decreases moves.len(),
{
    if moves.len() == 0 {
        0
    } else {
        moves_made(moves.drop_last()) + if moves.last() {
            1int
        } else {
            0int
        }
    }
}

/// There are no more moves than offers.
pub proof fn lemma_moves_made(moves: Seq<bool>)
    ensures
        0 <= moves_made(moves) <= moves.len(),
    decreases moves.len(),
{
    if moves.len() > 0 {
        lemma_moves_made(moves.drop_last());
    }
}

/// So many units reach the limit.
pub open spec fn reaches(limit: Option<usize>, moved: int) -> bool {
    limit matches Some(limit) && moved >= limit
}

/// Whether the limit is reached.
fn limit_reached(limit: Option<usize>, moved: usize) -> (result: bool)
    ensures
        result == reaches(limit, moved as int),
{
    match limit {
        Some(limit) => moved >= limit,
        None => false,
    }
}

/// One pass: the placements that its offers lead through, and whether each
/// offer made a move.
pub type RefinePass = (Seq<Seq<Option<BelId>>>, Seq<bool>);

/// The units that moved so far, after some offers of a pass.
pub open spec fn moved_after(
    order: Seq<RefineOrder>,
    earlier: Set<usize>,
    moves: Seq<bool>,
) -> Set<usize>
    decreases moves.len(),
{
    if moves.len() == 0 {
        earlier
    } else {
        let rest = moved_after(order, earlier, moves.drop_last());
        if moves.last() {
            rest.insert(order[moves.len() - 1].index)
        } else {
            rest
        }
    }
}

/// The units that moved in the first passes.
pub open spec fn moved_in(order: Seq<RefineOrder>, passes: Seq<RefinePass>) -> Set<usize>
    decreases passes.len(),
{
    if passes.len() == 0 {
        Set::empty()
    } else {
        moved_after(order, moved_in(order, passes.drop_last()), passes.last().1)
    }
}

/// One offer of the pass, to the unit whose turn it is.
pub open spec fn is_offer(
    graph: UnifiedGraph<'_>,
    constraints: &PlacementConstraints,
    units: Seq<PlacementUnit>,
    neighbors: Seq<Vec<PlacementNeighbor>>,
    order: Seq<RefineOrder>,
    pass: RefinePass,
    at: int,
) -> bool {
    refine_step(
        graph,
        constraints,
        neighbors,
        units[order[at].index as int],
        pass.0[at],
        pass.0[at + 1],
        pass.1[at],
    )
}

/// The limit of moved units is reached before the offer.
pub open spec fn is_spent(
    order: Seq<RefineOrder>,
    limit: Option<usize>,
    earlier: Set<usize>,
    moves: Seq<bool>,
    at: int,
) -> bool {
    reaches(limit, moved_after(order, earlier, moves.take(at)).len() as int)
}

/// The offers of a pass so far, each of them made below the limit.
pub open spec fn is_pass_so_far(
    graph: UnifiedGraph<'_>,
    constraints: &PlacementConstraints,
    units: Seq<PlacementUnit>,
    neighbors: Seq<Vec<PlacementNeighbor>>,
    order: Seq<RefineOrder>,
    limit: Option<usize>,
    earlier: Set<usize>,
    pass: RefinePass,
) -> bool {
    &&& pass.0.len() == pass.1.len() + 1
    &&& pass.1.len() <= order.len()
    &&& forall|i: int|
        0 <= i < pass.1.len() ==> #[trigger] is_offer(
            graph,
            constraints,
            units,
            neighbors,
            order,
            pass,
            i,
        )
    &&& forall|i: int|
        0 <= i < pass.1.len() ==> !#[trigger] is_spent(order, limit, earlier, pass.1, i)
}

/// The pass offers every unit a move in turn, until the limit is reached.
pub open spec fn is_pass(
    graph: UnifiedGraph<'_>,
    constraints: &PlacementConstraints,
    units: Seq<PlacementUnit>,
    neighbors: Seq<Vec<PlacementNeighbor>>,
    order: Seq<RefineOrder>,
    limit: Option<usize>,
    earlier: Set<usize>,
    pass: RefinePass,
) -> bool {
    &&& is_pass_so_far(graph, constraints, units, neighbors, order, limit, earlier, pass)
    &&& pass.1.len() == order.len() || reaches(
        limit,
        moved_after(order, earlier, pass.1).len() as int,
    )
}

/// Refinement goes on after the last pass: units moved, and the limit is not reached.
pub open spec fn goes_on(
    order: Seq<RefineOrder>,
    limit: Option<usize>,
    passes: Seq<RefinePass>,
) -> bool {
    &&& moves_made(passes.last().1) > 0
    &&& !reaches(limit, moved_in(order, passes).len() as int)
}

/// One pass of several.
pub open spec fn is_pass_at(
    graph: UnifiedGraph<'_>,
    constraints: &PlacementConstraints,
    units: Seq<PlacementUnit>,
    neighbors: Seq<Vec<PlacementNeighbor>>,
    order: Seq<RefineOrder>,
    limit: Option<usize>,
    passes: Seq<RefinePass>,
    at: int,
) -> bool {
    &&& is_pass(
        graph,
        constraints,
        units,
        neighbors,
        order,
        limit,
        moved_in(order, passes.take(at)),
        passes[at],
    )
    &&& at > 0 ==> goes_on(order, limit, passes.take(at)) && passes[at - 1].0.last()
        == passes[at].0[0]
}

/// Each pass starts where the one before it ended, and all but the last go on.
pub open spec fn are_passes(
    graph: UnifiedGraph<'_>,
    constraints: &PlacementConstraints,
    units: Seq<PlacementUnit>,
    neighbors: Seq<Vec<PlacementNeighbor>>,
    order: Seq<RefineOrder>,
    limit: Option<usize>,
    passes: Seq<RefinePass>,
) -> bool {
    forall|i: int|
        0 <= i < passes.len() ==> #[trigger] is_pass_at(
            graph,
            constraints,
            units,
            neighbors,
            order,
            limit,
            passes,
            i,
        )
}

/// The later placement comes from the earlier by passes over all units, the
/// heaviest first, until a pass moves nothing, the limit of moved units is
/// reached, or the pass is the last allowed. The peak is the number of units
/// that moved.
pub open spec fn refines(
    graph: UnifiedGraph<'_>,
    constraints: &PlacementConstraints,
    units: Seq<PlacementUnit>,
    neighbors: Seq<Vec<PlacementNeighbor>>,
    limit: Option<usize>,
    before: Seq<Option<BelId>>,
    after: Seq<Option<BelId>>,
    peak: int,
) -> bool {
    exists|order: Seq<RefineOrder>, passes: Seq<RefinePass>|
        {
            &&& is_refine_order(units, neighbors, order)
            &&& #[trigger] are_passes(
                graph,
                constraints,
                units,
                neighbors,
                order,
                limit,
                passes,
            )
            &&& 0 < passes.len() <= MAX_PLACEMENT_REFINEMENT_PASSES
            &&& passes[0].0[0] == before
            &&& passes.last().0.last() == after
            &&& goes_on(order, limit, passes) ==> passes.len() == MAX_PLACEMENT_REFINEMENT_PASSES
            &&& peak == moved_in(order, passes).len()
        }
}

/// The unit stands elsewhere than before.
pub open spec fn stands_elsewhere(
    unit: PlacementUnit,
    before: Seq<Option<BelId>>,
    after: Seq<Option<BelId>>,
) -> bool {
    exists|k: int|
        0 <= k < unit.cells@.len() && before[(#[trigger] unit.cells@[k]).0 as int]
            != after[unit.cells@[k].0 as int]
}

/// Positions of the units that stand elsewhere than before.
pub open spec fn units_elsewhere(
    units: Seq<PlacementUnit>,
    before: Seq<Option<BelId>>,
    after: Seq<Option<BelId>>,
) -> Set<usize> {
    Set::new(
        |u: usize| u < units.len() && stands_elsewhere(units[u as int], before, after),
    )
}

/// Whether both slots hold one BEL, or none.
fn same_slot(a: Option<BelId>, b: Option<BelId>) -> (result: bool)
    ensures
        result == (a == b),
{
    match (a, b) {
        (Some(x), Some(y)) => x == y,
        (None, None) => true,
        _ => false,
    }
}

/// Whether the unit stands elsewhere than before.
fn moved_elsewhere(
    unit: &PlacementUnit,
    before: &Vec<Option<BelId>>,
    after: &Vec<Option<BelId>>,
) -> (result: bool)
    requires
        cells_in_range(unit.cells@, before@.len() as int),
        cells_in_range(unit.cells@, after@.len() as int),
    ensures
        result == stands_elsewhere(*unit, before@, after@),
{
    let mut at: usize = 0;
    while at < unit.cells.len()
        invariant
            at <= unit.cells@.len(),
            cells_in_range(unit.cells@, before@.len() as int),
            cells_in_range(unit.cells@, after@.len() as int),
            forall|k: int|
                0 <= k < at ==> before@[(#[trigger] unit.cells@[k]).0 as int]
                    == after@[unit.cells@[k].0 as int],
        decreases unit.cells@.len() - at,
    {
        let cell = unit.cells[at];
        assert(unit.cells@[at as int].0 < before@.len());
        if !same_slot(before[cell.0], after[cell.0]) {
            assert(before@[unit.cells@[at as int].0 as int] != after@[unit.cells@[at as int].0 as int]);
            return true;
        }
        at = at + 1;
    }
    false
}

/// Number of units that stand elsewhere than before.
pub(crate) fn count_elsewhere(
    units: &Vec<PlacementUnit>,
    before: &Vec<Option<BelId>>,
    after: &Vec<Option<BelId>>,
) -> (result: usize)
    requires
        forall|u: int|
            0 <= u < units@.len() ==> cells_in_range(
                (#[trigger] units@[u]).cells@,
                before@.len() as int,
            ) && cells_in_range(units@[u].cells@, after@.len() as int),
    ensures
        units_elsewhere(units@, before@, after@).finite(),
        result == units_elsewhere(units@, before@, after@).len(),
{
    let mut count: usize = 0;
    let ghost mut found: Set<usize> = Set::empty();
    let mut index: usize = 0;
    while index < units.len()
        invariant
            index <= units@.len(),
            forall|u: int|
                0 <= u < units@.len() ==> cells_in_range(
                    (#[trigger] units@[u]).cells@,
                    before@.len() as int,
                ) && cells_in_range(units@[u].cells@, after@.len() as int),
            found.finite(),
            count == found.len(),
            count <= index,
            forall|u: usize| #[trigger]
                found.contains(u) <==> u < index && stands_elsewhere(
                    units@[u as int],
                    before@,
                    after@,
                ),
        decreases units@.len() - index,
    {
        assert(cells_in_range(units@[index as int].cells@, before@.len() as int));
        if moved_elsewhere(&units[index], before, after) {
            count = count + 1;
            proof {
                found = found.insert(index);
            }
        }
        index = index + 1;
    }
    assert(found =~= units_elsewhere(units@, before@, after@));
    count
}

/// More offers move more units.
proof fn lemma_moved_grows(
    order: Seq<RefineOrder>,
    earlier: Set<usize>,
    moves: Seq<bool>,
    count: int,
)
    requires
        earlier.finite(),
        0 <= count <= moves.len(),
    ensures
        moved_after(order, earlier, moves.take(count)).finite(),
        moved_after(order, earlier, moves).finite(),
        earlier.subset_of(moved_after(order, earlier, moves.take(count))),
        moved_after(order, earlier, moves.take(count)).subset_of(
            moved_after(order, earlier, moves),
        ),
    decreases moves.len(),
{
    if moves.len() == 0 {
        assert(moves.take(count) =~= moves);
    } else if count == moves.len() {
        assert(moves.take(count) =~= moves);
        lemma_moved_grows(order, earlier, moves.drop_last(), moves.len() - 1);
        assert(moves.drop_last().take(moves.len() - 1) =~= moves.drop_last());
    } else {
        lemma_moved_grows(order, earlier, moves.drop_last(), count);
        assert(moves.drop_last().take(count) =~= moves.take(count));
    }
}

/// More passes move more units.
proof fn lemma_moved_in_grows(order: Seq<RefineOrder>, passes: Seq<RefinePass>, count: int)
    requires
        0 <= count <= passes.len(),
    ensures
        moved_in(order, passes.take(count)).finite(),
        moved_in(order, passes).finite(),
        moved_in(order, passes.take(count)).subset_of(moved_in(order, passes)),
    decreases passes.len(),
{
    if count == passes.len() {
        assert(passes.take(count) =~= passes);
        if passes.len() > 0 {
            lemma_moved_in_grows(order, passes.drop_last(), passes.len() - 1);
            let rest = moved_in(order, passes.drop_last());
            let moves = passes.last().1;
            lemma_moved_grows(order, rest, moves, moves.len() as int);
            assert(moves.take(moves.len() as int) =~= moves);
        }
    } else {
        lemma_moved_in_grows(order, passes.drop_last(), count);
        assert(passes.drop_last().take(count) =~= passes.take(count));
        let rest = moved_in(order, passes.drop_last());
        let moves = passes.last().1;
        lemma_moved_grows(order, rest, moves, 0);
        lemma_moved_grows(order, rest, moves, moves.len() as int);
        assert(moves.take(moves.len() as int) =~= moves);
    }
}

/// A limit above the number of units that moved never affects the result:
/// another such limit leads the same way.
pub proof fn limit_above_peak_changes_nothing(
    graph: UnifiedGraph<'_>,
    constraints: &PlacementConstraints,
    units: Seq<PlacementUnit>,
    neighbors: Seq<Vec<PlacementNeighbor>>,
    limit: usize,
    other: usize,
    before: Seq<Option<BelId>>,
    after: Seq<Option<BelId>>,
    peak: int,
)
    requires
        refines(graph, constraints, units, neighbors, Some(limit), before, after, peak),
        peak < limit,
        peak < other,
    ensures
        refines(graph, constraints, units, neighbors, Some(other), before, after, peak),
{
    let (order, passes) = choose|order: Seq<RefineOrder>, passes: Seq<RefinePass>|
        {
            &&& is_refine_order(units, neighbors, order)
            &&& #[trigger] are_passes(
                graph,
                constraints,
                units,
                neighbors,
                order,
                Some(limit),
                passes,
            )
            &&& 0 < passes.len() <= MAX_PLACEMENT_REFINEMENT_PASSES
            &&& passes[0].0[0] == before
            &&& passes.last().0.last() == after
            &&& goes_on(order, Some(limit), passes) ==> passes.len()
                == MAX_PLACEMENT_REFINEMENT_PASSES
            &&& peak == moved_in(order, passes).len()
        };
    let all = moved_in(order, passes);
    assert forall|i: int| 0 <= i < passes.len() implies #[trigger] is_pass_at(
        graph,
        constraints,
        units,
        neighbors,
        order,
        Some(other),
        passes,
        i,
    ) by {
        assert(is_pass_at(graph, constraints, units, neighbors, order, Some(limit), passes, i));
        let earlier = moved_in(order, passes.take(i));
        let pass = passes[i];
        lemma_moved_in_grows(order, passes, i);
        lemma_moved_in_grows(order, passes, i + 1);
        vstd::set_lib::lemma_len_subset(earlier, all);
        assert(passes.take(i + 1).drop_last() =~= passes.take(i));
        assert(passes.take(i + 1).last() == pass);
        assert(moved_in(order, passes.take(i + 1)) == moved_after(order, earlier, pass.1));
        vstd::set_lib::lemma_len_subset(moved_after(order, earlier, pass.1), all);
        assert forall|k: int| 0 <= k < pass.1.len() implies !#[trigger] is_spent(
            order,
            Some(other),
            earlier,
            pass.1,
            k,
        ) by {
            lemma_moved_grows(order, earlier, pass.1, k);
            vstd::set_lib::lemma_len_subset(
                moved_after(order, earlier, pass.1.take(k)),
                moved_after(order, earlier, pass.1),
            );
        }
    }
    assert(are_passes(graph, constraints, units, neighbors, order, Some(other), passes));
}

/// A row changes nothing but its cells.
proof fn lemma_row_is_local(placed: Seq<Option<BelId>>, cells: Seq<CellId>, row: Seq<BelId>)
    requires
        cells_in_range(cells, placed.len() as int),
    ensures
        with_row(placed, cells, row).len() == placed.len(),
        forall|c: int|
            0 <= c < placed.len() && !cells.contains(CellId(c as usize))
                ==> #[trigger] with_row(placed, cells, row)[c] == placed[c],
    decreases cells.len(),
{
    if cells.len() > 0 {
        let rest = cells.drop_last();
        assert forall|k: int| 0 <= k < rest.len() implies (#[trigger] rest[k]).0
            < placed.len() by {
            assert(rest[k] == cells[k]);
        }
        lemma_row_is_local(placed, rest, row.drop_last());
        assert(cells[cells.len() - 1].0 < placed.len());
        assert forall|c: int|
            0 <= c < placed.len() && !cells.contains(
                CellId(c as usize),
            ) implies #[trigger] with_row(placed, cells, row)[c] == placed[c] by {
            if rest.contains(CellId(c as usize)) {
                let k = rest.index_of(CellId(c as usize));
                assert(cells[k] == CellId(c as usize));
            }
            if cells.last().0 == c {
                assert(cells[cells.len() - 1] == CellId(c as usize));
            }
        }
    }
}

/// An offer changes nothing but the cells of its unit.
proof fn lemma_offer_is_local(
    graph: UnifiedGraph<'_>,
    constraints: &PlacementConstraints,
    neighbors: Seq<Vec<PlacementNeighbor>>,
    unit: PlacementUnit,
    before: Seq<Option<BelId>>,
    after: Seq<Option<BelId>>,
    moved: bool,
)
    requires
        refine_step(graph, constraints, neighbors, unit, before, after, moved),
        forall|k: int| 0 <= k < unit.cells@.len() ==> (#[trigger] unit.cells@[k]).0 < before.len(),
    ensures
        after.len() == before.len(),
        !moved ==> after == before,
        forall|c: int|
            0 <= c < before.len() && !unit.cells@.contains(CellId(c as usize))
                ==> #[trigger] after[c] == before[c],
{
    if moved {
        let empty = without_cells(before, unit.cells@);
        let (current, occupied, choice) = choose|
            current: int,
            occupied: Seq<bool>,
            choice: Option<int>,
        |
            {
                &&& #[trigger] stands_on(unit, before, current)
                &&& occupied.len() == graph.device.bels@.len()
                &&& crate::placement_state::marks_taken(occupied, empty)
                &&& #[trigger] is_refined_choice(
                    graph,
                    constraints,
                    neighbors,
                    occupied,
                    empty,
                    unit,
                    choice,
                )
                &&& moved == (choice matches Some(index) && choice_cost(
                    graph,
                    neighbors,
                    empty,
                    unit,
                    index,
                ) < choice_cost(graph, neighbors, empty, unit, current))
                &&& after == if moved {
                    with_row(empty, unit.cells@, unit.choices.row(choice->0))
                } else {
                    before
                }
            };
        let row = unit.choices.row(choice->0);
        assert(after == with_row(empty, unit.cells@, row));
        lemma_without_cells(before, unit.cells@);
        lemma_row_is_local(empty, unit.cells@, row);
        assert forall|c: int|
            0 <= c < before.len() && !unit.cells@.contains(
                CellId(c as usize),
            ) implies #[trigger] after[c] == before[c] by {
            assert(after[c] == empty[c]);
        }
    }
}

/// Another unit that stood where it did still does.
proof fn lemma_displaced_by_offer(
    units: Seq<PlacementUnit>,
    start: Seq<Option<BelId>>,
    before: Seq<Option<BelId>>,
    after: Seq<Option<BelId>>,
    index: int,
    moved: Set<usize>,
)
    requires
        units_disjoint(units),
        0 <= index < units.len() <= usize::MAX,
        after.len() == before.len(),
        forall|u: int, k: int|
            #![trigger units[u].cells@[k]]
            0 <= u < units.len() && 0 <= k < units[u].cells@.len() ==> units[u].cells@[k].0
                < before.len(),
        forall|c: int|
            0 <= c < before.len() && !units[index].cells@.contains(CellId(c as usize))
                ==> #[trigger] after[c] == before[c],
        units_elsewhere(units, start, before).subset_of(moved),
    ensures
        units_elsewhere(units, start, after).subset_of(moved.insert(index as usize)),
{
    assert forall|u: usize| units_elsewhere(units, start, after).contains(u) implies moved.insert(
        index as usize,
    ).contains(u) by {
        if u != index {
            let unit = units[u as int];
            let k = choose|k: int|
                0 <= k < unit.cells@.len() && start[(#[trigger] unit.cells@[k]).0 as int]
                    != after[unit.cells@[k].0 as int];
            let cell = units[u as int].cells@[k];
            if units[index].cells@.contains(cell) {
                let l = units[index].cells@.index_of(cell);
                assert(units[index].cells@[l] == units[u as int].cells@[k]);
            }
            assert(CellId((cell.0 as int) as usize) == cell);
            assert(after[cell.0 as int] == before[cell.0 as int]);
            assert(stands_elsewhere(unit, start, before));
            assert(units_elsewhere(units, start, before).contains(u));
        }
    }
}

/// One more offer makes a longer pass.
proof fn lemma_pass_grows(
    graph: UnifiedGraph<'_>,
    constraints: &PlacementConstraints,
    units: Seq<PlacementUnit>,
    neighbors: Seq<Vec<PlacementNeighbor>>,
    order: Seq<RefineOrder>,
    limit: Option<usize>,
    earlier: Set<usize>,
    pass: RefinePass,
    next: Seq<Option<BelId>>,
    moved: bool,
)
    requires
        is_pass_so_far(graph, constraints, units, neighbors, order, limit, earlier, pass),
        pass.1.len() < order.len(),
        !reaches(limit, moved_after(order, earlier, pass.1).len() as int),
        refine_step(
            graph,
            constraints,
            neighbors,
            units[order[pass.1.len() as int].index as int],
            pass.0.last(),
            next,
            moved,
        ),
    ensures
        is_pass_so_far(
            graph,
            constraints,
            units,
            neighbors,
            order,
            limit,
            earlier,
            (pass.0.push(next), pass.1.push(moved)),
        ),
        moves_made(pass.1.push(moved)) == moves_made(pass.1) + if moved {
            1int
        } else {
            0int
        },
        moved_after(order, earlier, pass.1.push(moved)) == if moved {
            moved_after(order, earlier, pass.1).insert(order[pass.1.len() as int].index)
        } else {
            moved_after(order, earlier, pass.1)
        },
{
    let longer = (pass.0.push(next), pass.1.push(moved));
    assert(longer.1.drop_last() =~= pass.1);
    assert forall|i: int| 0 <= i < longer.1.len() implies #[trigger] is_offer(
        graph,
        constraints,
        units,
        neighbors,
        order,
        longer,
        i,
    ) by {
        if i < pass.1.len() {
            assert(is_offer(graph, constraints, units, neighbors, order, pass, i));
        }
    }
    assert forall|i: int| 0 <= i < longer.1.len() implies !#[trigger] is_spent(
        order,
        limit,
        earlier,
        longer.1,
        i,
    ) by {
        assert(longer.1.take(i) =~= pass.1.take(i));
        if i < pass.1.len() {
            assert(!is_spent(order, limit, earlier, pass.1, i));
        } else {
            assert(pass.1.take(i) =~= pass.1);
        }
    }
}

/// Which units moved.
struct MovedUnits {
    flags: Vec<bool>,
    count: usize,
}

impl MovedUnits {
    /// The flags mark the units of the set.
    spec fn holds(&self, units: int, set: Set<usize>) -> bool {
        &&& self.flags@.len() == units
        &&& set.finite()
        &&& self.count == set.len()
        &&& forall|u: usize| #[trigger] set.contains(u) ==> u < units
        &&& forall|u: usize| u < units ==> (#[trigger] set.contains(u) <==> self.flags@[u as int])
    }

    /// Marks one unit.
    fn mark(&mut self, index: usize, Ghost(set): Ghost<Set<usize>>)
        requires
            old(self).holds(old(self).flags@.len() as int, set),
            index < old(self).flags@.len(),
        ensures
            final(self).holds(old(self).flags@.len() as int, set.insert(index)),
    {
        if !self.flags[index] {
            let ghost more = set.insert(index);
            proof {
                assert(self.flags.len() == self.flags@.len());
                lemma_small_set(more, self.flags@.len() as int);
            }
            self.flags.set(index, true);
            self.count = self.count + 1;
        } else {
            assert(set.insert(index) =~= set);
        }
    }
}

/// A set of small numbers is small.
proof fn lemma_small_set(set: Set<usize>, bound: int)
    requires
        set.finite(),
        0 <= bound <= usize::MAX,
        forall|u: usize| #[trigger] set.contains(u) ==> u < bound,
    ensures
        set.len() <= bound,
    decreases bound,
{
    if bound == 0 {
        assert(set =~= Set::empty());
    } else {
        lemma_small_set(set.remove((bound - 1) as usize), bound - 1);
    }
}

/// Offers every unit a move in turn, until the limit is reached. Returns the
/// number of moves.
fn refine_pass(
    graph: &UnifiedGraph<'_>,
    constraints: &PlacementConstraints,
    units: &Vec<PlacementUnit>,
    spatial: &Vec<Arc<SpatialChoiceIndex>>,
    neighbors: &Vec<Vec<PlacementNeighbor>>,
    order: &Vec<RefineOrder>,
    state: &mut PlacementState,
    move_limit: Option<usize>,
    moved_units: &mut MovedUnits,
    Ghost(earlier): Ghost<Set<usize>>,
    Ghost(start): Ghost<Seq<Option<BelId>>>,
) -> (result: (usize, Ghost<RefinePass>))
    requires
        graph.wf(),
        constraints.wf(),
        bindings_in_range(*graph, constraints),
        neighbors_in_range(neighbors@, graph.design.cells@.len() as int),
        forall|u: int|
            0 <= u < units@.len() ==> (#[trigger] units@[u]).wf(*graph, constraints),
        units_disjoint(units@),
        all_indexed(*graph, units@, spatial@),
        is_refine_order(units@, neighbors@, order@),
        old(state).wf(*graph, constraints),
        units_stand(units@, old(state).placed@),
        old(moved_units).holds(units@.len() as int, earlier),
        units_elsewhere(units@, start, old(state).placed@).subset_of(earlier),
        move_limit matches Some(limit) ==> earlier.len() <= limit,
    ensures
        final(state).wf(*graph, constraints),
        units_stand(units@, final(state).placed@),
        is_pass(
            *graph,
            constraints,
            units@,
            neighbors@,
            order@,
            move_limit,
            earlier,
            result.1@,
        ),
        result.1@.0[0] == old(state).placed@,
        result.1@.0.last() == final(state).placed@,
        result.0 == moves_made(result.1@.1),
        result.0 <= units@.len(),
        final(moved_units).holds(
            units@.len() as int,
            moved_after(order@, earlier, result.1@.1),
        ),
        units_elsewhere(units@, start, final(state).placed@).subset_of(
            moved_after(order@, earlier, result.1@.1),
        ),
        move_limit matches Some(limit) ==> moved_after(order@, earlier, result.1@.1).len()
            <= limit,
        moved_after(order@, earlier, result.1@.1).len() == 0 ==> earlier.len() == 0
            && final(state).placed@ == old(state).placed@,
{
    let mut moved: usize = 0;
    let mut at: usize = 0;
    let ghost mut pass: RefinePass = (seq![state.placed@], Seq::empty());
    let ghost mut now: Set<usize> = earlier;
    while at < order.len() && !limit_reached(move_limit, moved_units.count)
        invariant
            at <= order@.len(),
            graph.wf(),
            constraints.wf(),
            bindings_in_range(*graph, constraints),
            neighbors_in_range(neighbors@, graph.design.cells@.len() as int),
            forall|u: int|
                0 <= u < units@.len() ==> (#[trigger] units@[u]).wf(*graph, constraints),
            units_disjoint(units@),
            all_indexed(*graph, units@, spatial@),
            is_refine_order(units@, neighbors@, order@),
            state.wf(*graph, constraints),
            units_stand(units@, state.placed@),
            is_pass_so_far(
                *graph,
                constraints,
                units@,
                neighbors@,
                order@,
                move_limit,
                earlier,
                pass,
            ),
            pass.1.len() == at,
            pass.0[0] == old(state).placed@,
            pass.0.last() == state.placed@,
            moved == moves_made(pass.1),
            moved <= at,
            now == moved_after(order@, earlier, pass.1),
            moved_units.holds(units@.len() as int, now),
            units_elsewhere(units@, start, state.placed@).subset_of(now),
            move_limit matches Some(limit) ==> now.len() <= limit,
            now.len() == 0 ==> earlier.len() == 0 && state.placed@ == old(state).placed@,
        decreases order@.len() - at,
    {
        let index: usize = order[at].index;
        proof {
            assert(units.len() == units@.len());
            lemma_order_names_units(units@, neighbors@, order@, at as int);
        }
        assert(spatial@[index as int].indexes(units@[index as int].choices, graph.device));
        let ghost before = state.placed@;
        let step = refine_unit(
            graph,
            constraints,
            units,
            index,
            &spatial[index],
            neighbors,
            state,
        );
        proof {
            lemma_pass_grows(
                *graph,
                constraints,
                units@,
                neighbors@,
                order@,
                move_limit,
                earlier,
                pass,
                state.placed@,
                step,
            );
            assert forall|u: int, k: int|
                #![trigger units@[u].cells@[k]]
                0 <= u < units@.len() && 0 <= k < units@[u].cells@.len() implies units@[u].cells@[k].0
                < before.len() by {
                assert(units@[u].wf(*graph, constraints));
            }
            lemma_offer_is_local(
                *graph,
                constraints,
                neighbors@,
                units@[index as int],
                before,
                state.placed@,
                step,
            );
            if step {
                lemma_displaced_by_offer(
                    units@,
                    start,
                    before,
                    state.placed@,
                    index as int,
                    now,
                );
            }
            pass = (pass.0.push(state.placed@), pass.1.push(step));
        }
        if step {
            moved = moved + 1;
            moved_units.mark(index, Ghost(now));
            proof {
                now = now.insert(index);
            }
        }
        at = at + 1;
    }
    (moved, Ghost(pass))
}

/// One more pass makes a longer run.
proof fn lemma_run_grows(
    graph: UnifiedGraph<'_>,
    constraints: &PlacementConstraints,
    units: Seq<PlacementUnit>,
    neighbors: Seq<Vec<PlacementNeighbor>>,
    order: Seq<RefineOrder>,
    limit: Option<usize>,
    passes: Seq<RefinePass>,
    next: RefinePass,
)
    requires
        are_passes(graph, constraints, units, neighbors, order, limit, passes),
        is_pass(
            graph,
            constraints,
            units,
            neighbors,
            order,
            limit,
            moved_in(order, passes),
            next,
        ),
        passes.len() > 0 ==> goes_on(order, limit, passes) && passes.last().0.last()
            == next.0[0],
    ensures
        are_passes(graph, constraints, units, neighbors, order, limit, passes.push(next)),
        moved_in(order, passes.push(next)) == moved_after(
            order,
            moved_in(order, passes),
            next.1,
        ),
{
    let longer = passes.push(next);
    assert(longer.drop_last() =~= passes);
    assert forall|i: int| 0 <= i < longer.len() implies #[trigger] is_pass_at(
        graph,
        constraints,
        units,
        neighbors,
        order,
        limit,
        longer,
        i,
    ) by {
        assert(longer.take(i) =~= passes.take(i));
        if i < passes.len() {
            assert(is_pass_at(graph, constraints, units, neighbors, order, limit, passes, i));
            assert(longer[i] == passes[i]);
        } else {
            assert(passes.take(i) =~= passes);
        }
    }
}

/// Offers every unit moves, pass after pass, until none moves or the limit of
/// moved units is reached. Returns the number of units that moved.
pub(crate) fn refine_placement(
    graph: &UnifiedGraph<'_>,
    constraints: &PlacementConstraints,
    units: &Vec<PlacementUnit>,
    spatial: &Vec<Arc<SpatialChoiceIndex>>,
    neighbors: &Vec<Vec<PlacementNeighbor>>,
    state: &mut PlacementState,
    move_limit: Option<usize>,
) -> (result: usize)
    requires
        graph.wf(),
        constraints.wf(),
        bindings_in_range(*graph, constraints),
        neighbors_in_range(neighbors@, graph.design.cells@.len() as int),
        forall|u: int|
            0 <= u < units@.len() ==> (#[trigger] units@[u]).wf(*graph, constraints),
        units_disjoint(units@),
        all_indexed(*graph, units@, spatial@),
        old(state).wf(*graph, constraints),
        units_stand(units@, old(state).placed@),
    ensures
        final(state).wf(*graph, constraints),
        units_stand(units@, final(state).placed@),
        refines(
            *graph,
            constraints,
            units@,
            neighbors@,
            move_limit,
            old(state).placed@,
            final(state).placed@,
            result as int,
        ),
        units_elsewhere(units@, old(state).placed@, final(state).placed@).finite(),
        units_elsewhere(units@, old(state).placed@, final(state).placed@).len() <= result,
        result <= units@.len(),
        move_limit matches Some(limit) ==> result <= limit,
        result == 0 ==> final(state).placed@ == old(state).placed@,
{
    let order = refinement_order(units, neighbors, Ghost(*graph), Ghost(constraints));
    let ghost mut passes: Seq<RefinePass> = Seq::empty();
    let ghost mut now: Set<usize> = Set::empty();
    let ghost start = state.placed@;
    let mut moved_units = MovedUnits { flags: vec![false; units.len()], count: 0 };
    let mut pass: usize = 0;
    let mut more = true;
    assert(units_elsewhere(units@, start, start) =~= Set::<usize>::empty());
    while more && pass < MAX_PLACEMENT_REFINEMENT_PASSES
        invariant
            pass <= MAX_PLACEMENT_REFINEMENT_PASSES,
            graph.wf(),
            constraints.wf(),
            bindings_in_range(*graph, constraints),
            neighbors_in_range(neighbors@, graph.design.cells@.len() as int),
            forall|u: int|
                0 <= u < units@.len() ==> (#[trigger] units@[u]).wf(*graph, constraints),
            units_disjoint(units@),
            all_indexed(*graph, units@, spatial@),
            is_refine_order(units@, neighbors@, order@),
            state.wf(*graph, constraints),
            units_stand(units@, state.placed@),
            start == old(state).placed@,
            are_passes(
                *graph,
                constraints,
                units@,
                neighbors@,
                order@,
                move_limit,
                passes,
            ),
            passes.len() == pass,
            pass == 0 ==> state.placed@ == start && more,
            pass > 0 ==> passes[0].0[0] == start && passes.last().0.last() == state.placed@ && (
            more <==> goes_on(order@, move_limit, passes)),
            now == moved_in(order@, passes),
            moved_units.holds(units@.len() as int, now),
            units_elsewhere(units@, start, state.placed@).subset_of(now),
            move_limit matches Some(limit) ==> now.len() <= limit,
            now.len() == 0 ==> state.placed@ == start,
        decreases MAX_PLACEMENT_REFINEMENT_PASSES - pass,
    {
        let (moved, record) = refine_pass(
            graph,
            constraints,
            units,
            spatial,
            neighbors,
            &order,
            state,
            move_limit,
            &mut moved_units,
            Ghost(now),
            Ghost(start),
        );
        proof {
            lemma_run_grows(
                *graph,
                constraints,
                units@,
                neighbors@,
                order@,
                move_limit,
                passes,
                record@,
            );
            passes = passes.push(record@);
            now = moved_in(order@, passes);
            lemma_moves_made(record@.1);
        }
        if moved == 0 || limit_reached(move_limit, moved_units.count) {
            more = false;
        }
        pass = pass + 1;
    }
    proof {
        assert(are_passes(
            *graph,
            constraints,
            units@,
            neighbors@,
            order@,
            move_limit,
            passes,
        ));
        vstd::set_lib::lemma_len_subset(units_elsewhere(units@, start, state.placed@), now);
        lemma_small_set(now, units@.len() as int);
    }
    moved_units.count
}

} // verus!
