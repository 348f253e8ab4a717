//! First placement: unit after unit, each on its best free row.

use vstd::prelude::*;
use vstd::string::*;

use crate::candidates::{bindings_in_range, can_hold, lemma_valid_in_range};
use crate::cost::clip_u64;
use crate::device::{Device, UnifiedGraph};
use crate::error::PnrError;
use crate::legality::row_is_legal;
use crate::model::{BelId, CellId, Point};
use crate::neighbors::{neighbors_in_range, PlacementNeighbor};
use crate::ordered::{
    lemma_counterpart, lemma_digits, lemma_lex_transitive, lex_before, lex_precedes, same_keys, sort_keys, OrderedKey,
};
use crate::placement_constraints::PlacementConstraints;
use crate::placement_state::{row_is_free, PlacementState};
use crate::row_cost::{assignment_pull, bel_point, placed_on_device, row_pull_upto};
use crate::standing::{stands, stands_on, units_stand};
use crate::unit_list::{are_units, units_disjoint};
use crate::units::{constraints_valid, row_fits, PlacementUnit};
use crate::usage_model::{cells_in_range, lemma_with_row, with_row};

verus! {

/// What a row is compared by.
pub struct RowKey {
    /// Pull of the unit's edges.
    pub pull: u64,
    /// Distance of the row's BELs from the center of the device.
    pub center: u64,
    /// Tiles of the row's BELs.
    pub points: Vec<Point>,
    /// The row.
    pub row: Vec<BelId>,
}

/// What a row is compared by: the pull of the unit's edges, the distance of its BELs
/// from the center of the device, their tiles, and the BELs themselves.
pub type RowRank = (int, int, Seq<Point>, Seq<BelId>);

/// What the row is compared by.
pub open spec fn row_rank(
    device: &Device,
    neighbors: Seq<Vec<PlacementNeighbor>>,
    placed: Seq<Option<BelId>>,
    cells: Seq<CellId>,
    row: Seq<BelId>,
) -> RowRank {
    (
        clip_u64(row_pull_upto(cells.len() as int, cells, row, device, neighbors, placed)),
        clip_u64(center_distance(device, row)),
        row.map_values(|bel: BelId| bel_point(device, bel)),
        row,
    )
}

/// What the key holds.
pub open spec fn key_rank(key: RowKey) -> RowRank {
    (key.pull as int, key.center as int, key.points@, key.row@)
}

/// The key is that of the row.
pub open spec fn is_key(
    device: &Device,
    neighbors: Seq<Vec<PlacementNeighbor>>,
    placed: Seq<Option<BelId>>,
    cells: Seq<CellId>,
    row: Seq<BelId>,
    key: RowKey,
) -> bool {
    key_rank(key) == row_rank(device, neighbors, placed, cells, row)
}

/// Middle tile of the device.
pub open spec fn device_center(device: &Device) -> Point {
    Point { x: (device.width / 2) as u32, y: (device.height / 2) as u32 }
}

/// Distance of the row's BELs from the center of the device.
pub open spec fn center_distance(device: &Device, row: Seq<BelId>) -> int
    decreases row.len(),
{
    if row.len() == 0 {
        0
    } else {
        center_distance(device, row.drop_last()) + bel_point(device, row.last()).distance(
            device_center(device),
        )
    }
}

/// The one row comes before the other: by pull, then by distance from the
/// center, then by tiles, then by BELs.
pub open spec fn rank_before(a: RowRank, b: RowRank) -> bool {
    ||| a.0 < b.0
    ||| a.0 == b.0 && a.1 < b.1
    ||| a.0 == b.0 && a.1 == b.1 && lex_before(a.2, b.2)
    ||| a.0 == b.0 && a.1 == b.1 && a.2 == b.2 && lex_before(a.3, b.3)
}

/// The one key comes before the other.
pub open spec fn key_before(a: RowKey, b: RowKey) -> bool {
    rank_before(key_rank(a), key_rank(b))
}

/// The order of rows is transitive.
proof fn lemma_rank_transitive(a: RowRank, b: RowRank, c: RowRank)
    requires
        rank_before(a, b),
        rank_before(b, c),
    ensures
        rank_before(a, c),
{
    if a.0 == b.0 && b.0 == c.0 && a.1 == b.1 && b.1 == c.1 {
        if lex_before(a.2, b.2) && lex_before(b.2, c.2) {
            lemma_lex_transitive(a.2, b.2, c.2);
        } else if a.2 == b.2 && b.2 == c.2 {
            lemma_lex_transitive(a.3, b.3, c.3);
        }
    }
}

/// Whether the one row comes before the other.
fn key_precedes(a: &RowKey, b: &RowKey) -> (result: bool)
    ensures
        result == key_before(*a, *b),
{
    if a.pull != b.pull {
        return a.pull < b.pull;
    }
    if a.center != b.center {
        return a.center < b.center;
    }
    if lex_precedes(&a.points, &b.points) {
        return true;
    }
    same_keys(&a.points, &b.points) && lex_precedes(&a.row, &b.row)
}

/// The key of a row.
fn row_key(
    device: &Device,
    neighbors: &Vec<Vec<PlacementNeighbor>>,
    placed: &Vec<Option<BelId>>,
    cells: &Vec<CellId>,
    row: Vec<BelId>,
) -> (result: RowKey)
    requires
        cells@.len() == row@.len(),
        neighbors_in_range(neighbors@, placed@.len() as int),
        placed_on_device(device, placed@),
        forall|k: int| 0 <= k < cells@.len() ==> (#[trigger] cells@[k]).0 < placed@.len(),
        forall|k: int| 0 <= k < row@.len() ==> (#[trigger] row@[k]).0 < device.bels@.len(),
    ensures
        is_key(device, neighbors@, placed@, cells@, row@, result),
{
    let pull: u64 = assignment_pull(cells, &row, device, neighbors, placed);
    let middle = Point { x: device.width / 2, y: device.height / 2 };
    let mut center: u64 = 0;
    let mut points: Vec<Point> = Vec::new();
    let mut at: usize = 0;
    while at < row.len()
        invariant
            at <= row@.len(),
            middle == device_center(device),
            forall|k: int| 0 <= k < row@.len() ==> (#[trigger] row@[k]).0 < device.bels@.len(),
            center == clip_u64(center_distance(device, row@.take(at as int))),
            center_distance(device, row@.take(at as int)) >= 0,
            points@ == row@.take(at as int).map_values(|bel: BelId| bel_point(device, bel)),
        decreases row@.len() - at,
    {
        assert(row@[at as int].0 < device.bels@.len());
        let point = device.bels[row[at].0].point;
        proof {
            assert(row@.take(at + 1).drop_last() =~= row@.take(at as int));
            assert(row@.take(at + 1).last() == row@[at as int]);
        }
        center = center.saturating_add(point.manhattan(middle));
        points.push(point);
        proof {
            assert(points@ =~= row@.take(at + 1).map_values(
                |bel: BelId| bel_point(device, bel),
            ));
        }
        at = at + 1;
    }
    assert(row@.take(at as int) =~= row@);
    RowKey { pull, center, points, row }
}

/// The row is free and shares resources legally.
pub open spec fn row_available(
    graph: UnifiedGraph<'_>,
    constraints: &PlacementConstraints,
    state: PlacementState,
    unit: PlacementUnit,
    index: int,
) -> bool {
    &&& 0 <= index < unit.choices.count()
    &&& row_is_free(state.occupied@, unit.choices.row(index))
    &&& row_is_legal(
        graph,
        constraints,
        state.placed@,
        unit.cells@,
        unit.choices.row(index),
    )
}

/// No available row of the unit comes before this one.
pub open spec fn is_best_row(
    graph: UnifiedGraph<'_>,
    constraints: &PlacementConstraints,
    neighbors: Seq<Vec<PlacementNeighbor>>,
    state: PlacementState,
    unit: PlacementUnit,
    index: int,
) -> bool {
    &&& row_available(graph, constraints, state, unit, index)
    &&& forall|j: int| #[trigger]
        row_available(graph, constraints, state, unit, j) ==> !rank_before(
            row_rank(
                graph.device,
                neighbors,
                state.placed@,
                unit.cells@,
                unit.choices.row(j),
            ),
            row_rank(
                graph.device,
                neighbors,
                state.placed@,
                unit.cells@,
                unit.choices.row(index),
            ),
        )
}

/// Best available row of a unit.
pub(crate) fn choose_assignment(
    graph: &UnifiedGraph<'_>,
    constraints: &PlacementConstraints,
    neighbors: &Vec<Vec<PlacementNeighbor>>,
    state: &mut PlacementState,
    unit: &PlacementUnit,
) -> (result: Option<usize>)
    requires
        graph.wf(),
        constraints.wf(),
        bindings_in_range(*graph, constraints),
        neighbors_in_range(neighbors@, graph.design.cells@.len() as int),
        unit.wf(*graph, constraints),
        old(state).wf(*graph, constraints),
        forall|k: int|
            0 <= k < unit.cells@.len() ==> old(state).placed@[(#[trigger] unit.cells@[k]).0 as int]
                is None,
    ensures
        final(state).wf(*graph, constraints),
        final(state).placed == old(state).placed,
        final(state).occupied == old(state).occupied,
        match result {
            Some(index) => is_best_row(
                *graph,
                constraints,
                neighbors@,
                *final(state),
                *unit,
                index as int,
            ),
            None => forall|j: int| !#[trigger]
                row_available(*graph, constraints, *final(state), *unit, j),
        },
{
    let device = graph.device();
    let ghost placed = state.placed@;
    let ghost flags = state.occupied@;
    let mut best: Option<(usize, RowKey)> = None;
    let mut index: usize = 0;
    while index < unit.choices.len()
        invariant
            index <= unit.choices.count(),
            graph.wf(),
            constraints.wf(),
            bindings_in_range(*graph, constraints),
            device == graph.device,
            neighbors_in_range(neighbors@, graph.design.cells@.len() as int),
            unit.wf(*graph, constraints),
            state.wf(*graph, constraints),
            state.placed == old(state).placed,
            state.occupied == old(state).occupied,
            placed == state.placed@,
            flags == state.occupied@,
            forall|k: int|
                0 <= k < unit.cells@.len() ==> placed[(#[trigger] unit.cells@[k]).0 as int]
                    is None,
            match best {
                None => forall|j: int|
                    0 <= j < index ==> !#[trigger] available(
                        *graph,
                        constraints,
                        flags,
                        placed,
                        *unit,
                        j,
                    ),
                Some(found) => {
                    &&& found.0 < index
                    &&& available(*graph, constraints, flags, placed, *unit, found.0 as int)
                    &&& is_key(
                        device,
                        neighbors@,
                        placed,
                        unit.cells@,
                        unit.choices.row(found.0 as int),
                        found.1,
                    )
                    &&& forall|j: int|
                        0 <= j < index && #[trigger] available(
                            *graph,
                            constraints,
                            flags,
                            placed,
                            *unit,
                            j,
                        ) ==> !rank_before(
                            row_rank(
                                device,
                                neighbors@,
                                placed,
                                unit.cells@,
                                unit.choices.row(j),
                            ),
                            key_rank(found.1),
                        )
                },
            },
        decreases unit.choices.count() - index,
    {
        let row = unit.choices.assignment(index);
        proof {
            assert(row_fits(*graph, constraints, unit.cells@, unit.choices.row(index as int)));
            assert(cells_in_range(unit.cells@, graph.design.cells@.len() as int));
            assert forall|k: int| 0 <= k < row@.len() implies (#[trigger] row@[k]).0
                < device.bels@.len() by {
                assert(can_hold(*graph, constraints, unit.cells@[k], row@[k]));
            }
            assert(placed_on_device(device, placed)) by {
                assert forall|c: int| 0 <= c < placed.len() implies (
                #[trigger] placed[c] matches Some(bel) ==> bel.0 < device.bels@.len()) by {}
            }
        }
        let free = state.is_free(&row);
        let legal = free && state.is_legal(graph, constraints, &unit.cells, &row);
        assert(legal == available(*graph, constraints, flags, placed, *unit, index as int));
        if legal {
            let key = row_key(device, neighbors, &state.placed, &unit.cells, row);
            let better = match &best {
                None => true,
                Some(found) => key_precedes(&key, &found.1),
            };
            proof {
                assert forall|j: int|
                    0 <= j < index + 1 && #[trigger] available(
                        *graph,
                        constraints,
                        flags,
                        placed,
                        *unit,
                        j,
                    ) implies !rank_before(
                    row_rank(device, neighbors@, placed, unit.cells@, unit.choices.row(j)),
                    key_rank(
                        if better {
                            key
                        } else {
                            (best->0).1
                        },
                    ),
                ) by {
                    let other = row_rank(
                        device,
                        neighbors@,
                        placed,
                        unit.cells@,
                        unit.choices.row(j),
                    );
                    if j == index {
                        lemma_rank_irreflexive(other);
                    } else if better && best is Some {
                        if rank_before(other, key_rank(key)) {
                            lemma_rank_transitive(other, key_rank(key), key_rank((best->0).1));
                        }
                    }
                }
            }
            if better {
                best = Some((index, key));
            }
        }
        index = index + 1;
    }
    proof {
        assert forall|j: int| #[trigger] row_available(*graph, constraints, *state, *unit, j) implies available(
            *graph,
            constraints,
            flags,
            placed,
            *unit,
            j,
        ) && 0 <= j < index by {}
        if let Some(found) = &best {
            assert forall|j: int| #[trigger]
                row_available(*graph, constraints, *state, *unit, j) implies !rank_before(
                row_rank(
                    graph.device,
                    neighbors@,
                    state.placed@,
                    unit.cells@,
                    unit.choices.row(j),
                ),
                row_rank(
                    graph.device,
                    neighbors@,
                    state.placed@,
                    unit.cells@,
                    unit.choices.row(found.0 as int),
                ),
            ) by {
                assert(available(*graph, constraints, flags, placed, *unit, j));
            }
        }
    }
    match best {
        Some(found) => Some(found.0),
        None => None,
    }
}

/// The row is free and shares resources legally.
spec fn available(
    graph: UnifiedGraph<'_>,
    constraints: &PlacementConstraints,
    flags: Seq<bool>,
    placed: Seq<Option<BelId>>,
    unit: PlacementUnit,
    index: int,
) -> bool {
    &&& 0 <= index < unit.choices.count()
    &&& row_is_free(flags, unit.choices.row(index))
    &&& row_is_legal(graph, constraints, placed, unit.cells@, unit.choices.row(index))
}

/// No row comes before itself.
proof fn lemma_rank_irreflexive(rank: RowRank)
    ensures
        !rank_before(rank, rank),
{
    crate::ordered::lemma_lex_irreflexive(rank.2);
    crate::ordered::lemma_lex_irreflexive(rank.3);
}

/// Place of a unit in the order of placing: the fewest choices first, then the
/// most connected, then by its first cell.
#[derive(Clone, Copy, Debug, PartialEq, Eq, Structural)]
pub struct UnitOrder {
    /// Number of choices.
    pub choices: usize,
    /// Edges that end at the unit's cells.
    pub degree: usize,
    /// First cell.
    pub cell: CellId,
    /// Position among the units.
    pub index: usize,
}

impl OrderedKey for UnitOrder {
    open spec fn rank(self) -> int {
        ((self.choices * 0x1_0000_0000_0000_0000 + (u64::MAX - self.degree))
            * 0x1_0000_0000_0000_0000 + self.cell.0) * 0x1_0000_0000_0000_0000 + self.index
    }

    proof fn rank_is_injective(a: Self, b: Self) {
        let x = a.choices * 0x1_0000_0000_0000_0000 + (u64::MAX - a.degree);
        let y = b.choices * 0x1_0000_0000_0000_0000 + (u64::MAX - b.degree);
        lemma_digits(
            x * 0x1_0000_0000_0000_0000 + a.cell.0,
            a.index as int,
            y * 0x1_0000_0000_0000_0000 + b.cell.0,
            b.index as int,
            0x1_0000_0000_0000_0000,
        );
        lemma_digits(x, a.cell.0 as int, y, b.cell.0 as int, 0x1_0000_0000_0000_0000);
        lemma_digits(
            a.choices as int,
            u64::MAX - a.degree,
            b.choices as int,
            u64::MAX - b.degree,
            0x1_0000_0000_0000_0000,
        );
    }

    fn precedes(self, other: Self) -> (result: bool) {
        if self.choices != other.choices {
            self.choices < other.choices
        } else if self.degree != other.degree {
            self.degree > other.degree
        } else if self.cell.0 != other.cell.0 {
            self.cell.0 < other.cell.0
        } else {
            self.index < other.index
        }
    }
}

/// Sum of the degrees of some cells, as far as it is counted.
pub open spec fn degree_sum(degree: Seq<usize>, cells: Seq<CellId>) -> nat
    decreases cells.len(),
{
    if cells.len() == 0 {
        0
    } else {
        let sum = degree_sum(degree, cells.drop_last()) + degree[cells.last().0 as int];
        if sum > usize::MAX {
            usize::MAX as nat
        } else {
            sum as nat
        }
    }
}

/// Place of one unit in the order.
pub open spec fn unit_order(degree: Seq<usize>, unit: PlacementUnit, index: int) -> UnitOrder {
    UnitOrder {
        choices: unit.choices.count() as usize,
        degree: degree_sum(degree, unit.cells@) as usize,
        cell: unit.cells@[0],
        index: index as usize,
    }
}

/// The order holds every unit once, the most constrained first.
pub open spec fn is_placing_order(
    degree: Seq<usize>,
    units: Seq<PlacementUnit>,
    order: Seq<UnitOrder>,
) -> bool {
    &&& crate::ordered::nondecreasing(order)
    &&& forall|i: int|
        0 <= i < order.len() ==> {
            &&& (#[trigger] order[i]).index < units.len()
            &&& order[i] == unit_order(
                degree,
                units[order[i].index as int],
                order[i].index as int,
            )
        }
    &&& forall|u: int| 0 <= u < units.len() ==> #[trigger] orders_unit(order, u)
    &&& forall|i: int, j: int|
        0 <= i < j < order.len() ==> (#[trigger] order[i]).index != (#[trigger] order[j]).index
}

/// The unit takes its best available row.
pub open spec fn takes_best_row(
    graph: UnifiedGraph<'_>,
    constraints: &PlacementConstraints,
    neighbors: Seq<Vec<PlacementNeighbor>>,
    unit: PlacementUnit,
    before: Seq<Option<BelId>>,
    after: Seq<Option<BelId>>,
) -> bool {
    exists|state: PlacementState, choice: int|
        {
            &&& state.wf(graph, constraints)
            &&& state.placed@ == before
            &&& #[trigger] is_best_row(graph, constraints, neighbors, state, unit, choice)
            &&& after == with_row(before, unit.cells@, unit.choices.row(choice))
        }
}

/// One step of placing unit after unit.
pub open spec fn is_placing_step(
    graph: UnifiedGraph<'_>,
    constraints: &PlacementConstraints,
    neighbors: Seq<Vec<PlacementNeighbor>>,
    units: Seq<PlacementUnit>,
    order: Seq<UnitOrder>,
    chain: Seq<Seq<Option<BelId>>>,
    at: int,
) -> bool {
    takes_best_row(
        graph,
        constraints,
        neighbors,
        units[order[at].index as int],
        chain[at],
        chain[at + 1],
    )
}

/// The first units are placed in turn, from an empty device on.
pub open spec fn is_placing(
    graph: UnifiedGraph<'_>,
    constraints: &PlacementConstraints,
    degree: Seq<usize>,
    neighbors: Seq<Vec<PlacementNeighbor>>,
    units: Seq<PlacementUnit>,
    order: Seq<UnitOrder>,
    chain: Seq<Seq<Option<BelId>>>,
) -> bool {
    &&& is_placing_order(degree, units, order)
    &&& 0 < chain.len() <= order.len() + 1
    &&& chain[0] == Seq::new(graph.design.cells@.len(), |c: int| None::<BelId>)
    &&& forall|i: int|
        0 <= i < chain.len() - 1 ==> #[trigger] is_placing_step(
            graph,
            constraints,
            neighbors,
            units,
            order,
            chain,
            i,
        )
}

/// Every unit was placed in turn, each on its best available row.
pub open spec fn is_greedy(
    graph: UnifiedGraph<'_>,
    constraints: &PlacementConstraints,
    degree: Seq<usize>,
    neighbors: Seq<Vec<PlacementNeighbor>>,
    units: Seq<PlacementUnit>,
    placed: Seq<Option<BelId>>,
) -> bool {
    exists|order: Seq<UnitOrder>, chain: Seq<Seq<Option<BelId>>>|
        {
            &&& #[trigger] is_placing(
                graph,
                constraints,
                degree,
                neighbors,
                units,
                order,
                chain,
            )
            &&& chain.len() == order.len() + 1
            &&& chain.last() == placed
        }
}

/// The order lists the unit.
pub open spec fn orders_unit(order: Seq<UnitOrder>, index: int) -> bool {
    exists|i: int| 0 <= i < order.len() && (#[trigger] order[i]).index == index
}

/// Units in the order in which they are placed.
fn order_units(
    graph: &UnifiedGraph<'_>,
    degree: &Vec<usize>,
    units: &Vec<PlacementUnit>,
    Ghost(constraints): Ghost<&PlacementConstraints>,
) -> (result: Vec<UnitOrder>)
    requires
        degree@.len() == graph.design.cells@.len(),
        forall|u: int|
            0 <= u < units@.len() ==> (#[trigger] units@[u]).wf(*graph, constraints),
    ensures
        is_placing_order(degree@, units@, result@),
{
    let mut order: Vec<UnitOrder> = Vec::new();
    let mut index: usize = 0;
    while index < units.len()
        invariant
            index <= units@.len(),
            degree@.len() == graph.design.cells@.len(),
            forall|u: int|
                0 <= u < units@.len() ==> (#[trigger] units@[u]).wf(*graph, constraints),
            order@.len() == index,
            forall|i: int|
                0 <= i < index ==> #[trigger] order@[i] == unit_order(degree@, units@[i], i),
        decreases units@.len() - index,
    {
        let unit = &units[index];
        assert(units@[index as int].wf(*graph, constraints));
        let mut sum: usize = 0;
        let mut at: usize = 0;
        while at < unit.cells.len()
            invariant
                at <= unit.cells@.len(),
                degree@.len() == graph.design.cells@.len(),
                unit.wf(*graph, constraints),
                sum == degree_sum(degree@, unit.cells@.take(at as int)),
            decreases unit.cells@.len() - at,
        {
            proof {
                assert(unit.cells@[at as int].0 < graph.design.cells@.len());
                assert(unit.cells@.take(at + 1).drop_last() =~= unit.cells@.take(at as int));
                assert(unit.cells@.take(at + 1).last() == unit.cells@[at as int]);
            }
            sum = sum.saturating_add(degree[unit.cells[at].0]);
            at = at + 1;
        }
        assert(unit.cells@.take(at as int) =~= unit.cells@);
        order.push(
            UnitOrder {
                choices: unit.choices.len(),
                degree: sum,
                cell: unit.cells[0],
                index,
            },
        );
        index = index + 1;
    }
    let ghost listed = order@;
    sort_keys(&mut order);
    proof {
        assert(units.len() == units@.len());
        assert forall|i: int| 0 <= i < order@.len() implies {
            &&& (#[trigger] order@[i]).index < units@.len()
            &&& order@[i] == unit_order(
                degree@,
                units@[order@[i].index as int],
                order@[i].index as int,
            )
        } by {
            let k = lemma_counterpart(order@, listed, i);
            assert(listed[k] == unit_order(degree@, units@[k], k));
        }
        assert forall|u: int| 0 <= u < units@.len() implies #[trigger] orders_unit(order@, u) by {
            let i = lemma_counterpart(listed, order@, u);
            assert(listed[u] == unit_order(degree@, units@[u], u));
            assert(order@[i].index == u);
        }
        assert forall|i: int, j: int| 0 <= i < j < order@.len() implies (
        #[trigger] order@[i]).index != (#[trigger] order@[j]).index by {
            if order@[i].index == order@[j].index {
                let x = lemma_counterpart(order@, listed, i);
                let y = lemma_counterpart(order@, listed, j);
                assert(listed[x] == unit_order(degree@, units@[x], x));
                assert(listed[y] == unit_order(degree@, units@[y], y));
                assert(x == y);
                crate::ordered::lemma_twice_counted(order@, i, j);
                let (a, b) = crate::ordered::lemma_counted_twice(listed, listed[x]);
                assert(listed[a] == unit_order(degree@, units@[a], a));
                assert(listed[b] == unit_order(degree@, units@[b], b));
            }
        }
    }
    order
}

/// Units that are done stand on a row, the others have no placed cell.
spec fn done_units(
    units: Seq<PlacementUnit>,
    placed: Seq<Option<BelId>>,
    done: Set<int>,
) -> bool {
    &&& forall|u: int|
        0 <= u < units.len() && done.contains(u) ==> stands(#[trigger] units[u], placed)
    &&& forall|u: int, k: int|
        #![trigger units[u].cells@[k]]
        0 <= u < units.len() && !done.contains(u) && 0 <= k < units[u].cells@.len()
            ==> placed[units[u].cells@[k].0 as int] is None
}

/// Placing a unit leaves the others as they were.
proof fn lemma_unit_done(
    graph: UnifiedGraph<'_>,
    constraints: &PlacementConstraints,
    units: Seq<PlacementUnit>,
    placed: Seq<Option<BelId>>,
    done: Set<int>,
    unit: int,
    choice: int,
)
    requires
        graph.wf(),
        forall|u: int| 0 <= u < units.len() ==> (#[trigger] units[u]).wf(graph, constraints),
        units_disjoint(units),
        placed.len() == graph.design.cells@.len(),
        done_units(units, placed, done),
        0 <= unit < units.len(),
        !done.contains(unit),
        0 <= choice < units[unit].choices.count(),
    ensures
        done_units(
            units,
            with_row(placed, units[unit].cells@, units[unit].choices.row(choice)),
            done.insert(unit),
        ),
{
    let cells = units[unit].cells@;
    let row = units[unit].choices.row(choice);
    let after = with_row(placed, cells, row);
    assert(units[unit].wf(graph, constraints));
    assert(row_fits(graph, constraints, cells, row));
    assert(cells_in_range(cells, placed.len() as int));
    lemma_with_row(placed, cells, row);
    assert(graph.design.cells.len() == graph.design.cells@.len());
    assert forall|u: int, k: int|
        #![trigger units[u].cells@[k]]
        0 <= u < units.len() && u != unit && 0 <= k < units[u].cells@.len() implies after[units[u].cells@[k].0 as int]
        == placed[units[u].cells@[k].0 as int] by {
        let cell = units[u].cells@[k];
        assert(units[u].wf(graph, constraints));
        if cells.contains(cell) {
            let l = cells.index_of(cell);
            assert(units[unit].cells@[l] == units[u].cells@[k]);
        }
        assert(CellId(cell.0 as int as usize) == cell);
    }
    assert forall|u: int| 0 <= u < units.len() && done.insert(unit).contains(u) implies stands(
        #[trigger] units[u],
        after,
    ) by {
        if u == unit {
            assert(stands_on(units[u], after, choice)) by {
                assert forall|k: int| 0 <= k < units[u].cells@.len() implies after[(
                #[trigger] units[u].cells@[k]).0 as int] == Some(
                    units[u].choices.row(choice)[k],
                ) by {
                    assert(after[cells[k].0 as int] == Some(row[k]));
                }
            }
        } else {
            assert(stands(units[u], placed));
            let i = choose|i: int| #[trigger] stands_on(units[u], placed, i);
            assert(stands_on(units[u], after, i)) by {
                assert forall|k: int| 0 <= k < units[u].cells@.len() implies after[(
                #[trigger] units[u].cells@[k]).0 as int] == Some(units[u].choices.row(i)[k]) by {
                    assert(placed[units[u].cells@[k].0 as int] == Some(units[u].choices.row(i)[k]));
                }
            }
        }
    }
    assert forall|u: int, k: int|
        #![trigger units[u].cells@[k]]
        0 <= u < units.len() && !done.insert(unit).contains(u) && 0 <= k
            < units[u].cells@.len() implies after[units[u].cells@[k].0 as int] is None by {
        assert(placed[units[u].cells@[k].0 as int] is None);
    }
}

/// The unit whose turn it was met no available row.
pub open spec fn unit_stuck(
    graph: UnifiedGraph<'_>,
    constraints: &PlacementConstraints,
    degree: Seq<usize>,
    neighbors: Seq<Vec<PlacementNeighbor>>,
    units: Seq<PlacementUnit>,
    error: PnrError,
) -> bool {
    error matches PnrError::NoBel { cell } && exists|
        order: Seq<UnitOrder>,
        chain: Seq<Seq<Option<BelId>>>,
        state: PlacementState,
    |
        {
            &&& #[trigger] is_placing(
                graph,
                constraints,
                degree,
                neighbors,
                units,
                order,
                chain,
            )
            &&& chain.len() <= order.len()
            &&& #[trigger] state.wf(graph, constraints)
            &&& state.placed@ == chain.last()
            &&& {
                let unit = units[order[chain.len() - 1].index as int];
                &&& cell@ == graph.design.cells@[unit.cells@[0].0 as int].name@
                &&& forall|j: int| !#[trigger]
                    row_available(graph, constraints, state, unit, j)
            }
        }
}

/// One more unit is placed.
proof fn lemma_placing_grows(
    graph: UnifiedGraph<'_>,
    constraints: &PlacementConstraints,
    degree: Seq<usize>,
    neighbors: Seq<Vec<PlacementNeighbor>>,
    units: Seq<PlacementUnit>,
    order: Seq<UnitOrder>,
    chain: Seq<Seq<Option<BelId>>>,
    next: Seq<Option<BelId>>,
)
    requires
        is_placing(graph, constraints, degree, neighbors, units, order, chain),
        chain.len() <= order.len(),
        takes_best_row(
            graph,
            constraints,
            neighbors,
            units[order[chain.len() - 1].index as int],
            chain.last(),
            next,
        ),
    ensures
        is_placing(graph, constraints, degree, neighbors, units, order, chain.push(next)),
{
    let longer = chain.push(next);
    assert forall|i: int| 0 <= i < longer.len() - 1 implies #[trigger] is_placing_step(
        graph,
        constraints,
        neighbors,
        units,
        order,
        longer,
        i,
    ) by {
        if i < chain.len() - 1 {
            assert(is_placing_step(graph, constraints, neighbors, units, order, chain, i));
            assert(longer[i] == chain[i] && longer[i + 1] == chain[i + 1]);
        } else {
            assert(longer[i] == chain.last());
        }
    }
}

/// Places unit after unit, each on its best available row.
pub(crate) fn place_units(
    graph: &UnifiedGraph<'_>,
    constraints: &PlacementConstraints,
    units: &Vec<PlacementUnit>,
    degree: &Vec<usize>,
    neighbors: &Vec<Vec<PlacementNeighbor>>,
) -> (result: Result<PlacementState, PnrError>)
    requires
        graph.wf(),
        constraints.wf(),
        constraints_valid(*graph, constraints),
        are_units(*graph, constraints, units@),
        degree@.len() == graph.design.cells@.len(),
        neighbors_in_range(neighbors@, graph.design.cells@.len() as int),
    ensures
        match result {
            Ok(state) => state.wf(*graph, constraints) && units_stand(units@, state.placed@)
                && is_greedy(
                *graph,
                constraints,
                degree@,
                neighbors@,
                units@,
                state.placed@,
            ),
            Err(error) => unit_stuck(
                *graph,
                constraints,
                degree@,
                neighbors@,
                units@,
                error,
            ),
        },
{
    proof {
        lemma_valid_in_range(*graph, constraints);
    }
    let order = order_units(graph, degree, units, Ghost(constraints));
    let mut state = PlacementState::new(graph, Ghost(constraints));
    let ghost mut done: Set<int> = Set::empty();
    let ghost mut chain: Seq<Seq<Option<BelId>>> = seq![state.placed@];
    let mut at: usize = 0;
    proof {
        assert(state.placed@ =~= Seq::new(
            graph.design.cells@.len(),
            |c: int| None::<BelId>,
        ));
        assert(done_units(units@, state.placed@, done)) by {
            assert forall|u: int, k: int|
                #![trigger units@[u].cells@[k]]
                0 <= u < units@.len() && 0 <= k < units@[u].cells@.len() implies state.placed@[units@[u].cells@[k].0 as int]
                is None by {
                assert(units@[u].wf(*graph, constraints));
            }
        }
    }
    while at < order.len()
        invariant
            at <= order@.len(),
            graph.wf(),
            constraints.wf(),
            bindings_in_range(*graph, constraints),
            are_units(*graph, constraints, units@),
            neighbors_in_range(neighbors@, graph.design.cells@.len() as int),
            forall|i: int|
                0 <= i < order@.len() ==> (#[trigger] order@[i]).index < units@.len(),
            forall|i: int, j: int|
                0 <= i < j < order@.len() ==> (#[trigger] order@[i]).index != (
                #[trigger] order@[j]).index,
            state.wf(*graph, constraints),
            done_units(units@, state.placed@, done),
            forall|u: int| #[trigger]
                done.contains(u) <==> orders_unit(order@.take(at as int), u),
            is_placing(
                *graph,
                constraints,
                degree@,
                neighbors@,
                units@,
                order@,
                chain,
            ),
            chain.len() == at + 1,
            chain.last() == state.placed@,
        decreases order@.len() - at,
    {
        let index: usize = order[at].index;
        let unit = &units[index];
        proof {
            assert(order@[at as int].index < units@.len());
            assert(units@[index as int].wf(*graph, constraints));
            if done.contains(index as int) {
                let k = choose|k: int|
                    0 <= k < order@.take(at as int).len() && (#[trigger] order@.take(
                        at as int,
                    )[k]).index == index;
                assert(order@[k].index != order@[at as int].index);
            }
            assert forall|k: int| 0 <= k < unit.cells@.len() implies state.placed@[(
            #[trigger] unit.cells@[k]).0 as int] is None by {
                assert(state.placed@[units@[index as int].cells@[k].0 as int] is None);
            }
        }
        let choice: usize = match choose_assignment(
            graph,
            constraints,
            neighbors,
            &mut state,
            unit,
        ) {
            Some(choice) => choice,
            None => {
                let cell = crate::text::joined(
                    graph.design().cells[unit.cells[0].0].name.as_str(),
                    "",
                    "",
                );
                let error = PnrError::NoBel { cell };
                proof {
                    reveal_strlit("");
                    let name = graph.design.cells@[units@[index as int].cells@[0].0 as int].name;
                    assert(error->NoBel_cell@ =~= name@);
                    assert(state.wf(*graph, constraints));
                    assert(unit_stuck(
                        *graph,
                        constraints,
                        degree@,
                        neighbors@,
                        units@,
                        error,
                    ));
                }
                return Err(error);
            },
        };
        let row = unit.choices.assignment(choice);
        let ghost before = state.placed@;
        let ghost chosen = state;
        proof {
            assert(row_fits(*graph, constraints, unit.cells@, unit.choices.row(choice as int)));
            assert(cells_in_range(unit.cells@, graph.design.cells@.len() as int));
        }
        state.put_row(graph, constraints, &unit.cells, &row);
        proof {
            assert(is_best_row(
                *graph,
                constraints,
                neighbors@,
                chosen,
                units@[index as int],
                choice as int,
            ));
            assert(takes_best_row(
                *graph,
                constraints,
                neighbors@,
                units@[index as int],
                before,
                state.placed@,
            ));
            lemma_placing_grows(
                *graph,
                constraints,
                degree@,
                neighbors@,
                units@,
                order@,
                chain,
                state.placed@,
            );
            chain = chain.push(state.placed@);
            lemma_unit_done(
                *graph,
                constraints,
                units@,
                before,
                done,
                index as int,
                choice as int,
            );
            let shorter = order@.take(at as int);
            let longer = order@.take(at + 1);
            let ghost_done = done.insert(index as int);
            assert forall|u: int| #[trigger] ghost_done.contains(u) <==> orders_unit(longer, u) by {
                if orders_unit(shorter, u) {
                    let k = choose|k: int|
                        0 <= k < shorter.len() && (#[trigger] shorter[k]).index == u;
                    assert(longer[k].index == u);
                }
                if u == index {
                    assert(longer[at as int].index == u);
                } else if orders_unit(longer, u) {
                    let k = choose|k: int|
                        0 <= k < longer.len() && (#[trigger] longer[k]).index == u;
                    assert(shorter[k].index == u);
                }
            }
            done = ghost_done;
        }
        at = at + 1;
    }
    proof {
        assert(order@.take(at as int) =~= order@);
        assert forall|u: int| 0 <= u < units@.len() implies stands(
            #[trigger] units@[u],
            state.placed@,
        ) by {
            assert(orders_unit(order@, u));
            assert(done.contains(u));
        }
    }
    Ok(state)
}

} // verus!
