//! What placed cells take of the wires and shared sites of a device.

use vstd::prelude::*;

use crate::candidates::choice_wire;
use crate::device::UnifiedGraph;
use crate::model::{BelId, CellId, CellPinId, NetId, WireId};
use crate::ordered::OrderedKey;
use crate::placement_constraints::PlacementConstraints;

verus! {

/// A site of a shared-site rule.
#[derive(Clone, Copy, Debug, PartialEq, Eq, Structural)]
pub struct SharedSite {
    /// Rule.
    pub rule: usize,
    /// Resource of the rule.
    pub resource: u64,
}

impl OrderedKey for SharedSite {
    open spec fn rank(self) -> int {
        self.rule * 0x1_0000_0000_0000_0000 + self.resource
    }

    proof fn rank_is_injective(a: Self, b: Self) {
    }

    fn precedes(self, other: Self) -> (result: bool) {
        self.rule < other.rule || (self.rule == other.rule && self.resource < other.resource)
    }
}

/// The pin of a cell on the BEL joins the net to the wire.
pub open spec fn pin_hits(
    graph: UnifiedGraph<'_>,
    constraints: &PlacementConstraints,
    pin: CellPinId,
    bel: BelId,
    wire: WireId,
    net: NetId,
) -> bool {
    &&& graph.design.pins@[pin.0 as int].net == Some(net)
    &&& choice_wire(graph, constraints, pin, bel) == Some(wire)
}

/// Number of the pins that join the net to the wire.
pub open spec fn hits(
    graph: UnifiedGraph<'_>,
    constraints: &PlacementConstraints,
    pins: Seq<CellPinId>,
    bel: BelId,
    wire: WireId,
    net: NetId,
) -> nat
    decreases pins.len(),
{
    if pins.len() == 0 {
        0
    } else {
        hits(graph, constraints, pins.drop_last(), bel, wire, net) + if pin_hits(
            graph,
            constraints,
            pins.last(),
            bel,
            wire,
            net,
        ) {
            1nat
        } else {
            0nat
        }
    }
}

/// Number of pins of the cell that join the net to the wire.
pub open spec fn cell_hits(
    graph: UnifiedGraph<'_>,
    constraints: &PlacementConstraints,
    cell: int,
    slot: Option<BelId>,
    wire: WireId,
    net: NetId,
) -> nat {
    match slot {
        Some(bel) => hits(graph, constraints, graph.design.cells@[cell].pins@, bel, wire, net),
        None => 0,
    }
}

/// Number of pins of the placed cells that join the net to the wire.
pub open spec fn placed_hits(
    graph: UnifiedGraph<'_>,
    constraints: &PlacementConstraints,
    placed: Seq<Option<BelId>>,
    wire: WireId,
    net: NetId,
) -> nat
    decreases placed.len(),
{
    if placed.len() == 0 {
        0
    } else {
        placed_hits(graph, constraints, placed.drop_last(), wire, net) + cell_hits(
            graph,
            constraints,
            placed.len() - 1,
            placed.last(),
            wire,
            net,
        )
    }
}

/// The cell on the BEL puts the value on the site.
pub open spec fn puts_value(
    constraints: &PlacementConstraints,
    cell: CellId,
    bel: BelId,
    site: SharedSite,
    value: u64,
) -> bool {
    &&& site.rule < constraints.shared_resources@.len()
    &&& {
        let rule = constraints.shared_resources@[site.rule as int];
        &&& rule.cell_values@.contains_key(cell)
        &&& rule.cell_values@[cell] == value
        &&& rule.bel_resources@.contains_key(bel)
        &&& rule.bel_resources@[bel] == site.resource
    }
}

/// Whether the slot's cell puts the value on the site, as a number.
pub open spec fn slot_value(
    constraints: &PlacementConstraints,
    cell: int,
    slot: Option<BelId>,
    site: SharedSite,
    value: u64,
) -> nat {
    match slot {
        Some(bel) => if puts_value(constraints, CellId(cell as usize), bel, site, value) {
            1
        } else {
            0
        },
        None => 0,
    }
}

/// Number of placed cells that put the value on the site.
pub open spec fn placed_values(
    constraints: &PlacementConstraints,
    placed: Seq<Option<BelId>>,
    site: SharedSite,
    value: u64,
) -> nat
    decreases placed.len(),
{
    if placed.len() == 0 {
        0
    } else {
        placed_values(constraints, placed.drop_last(), site, value) + slot_value(
            constraints,
            placed.len() - 1,
            placed.last(),
            site,
            value,
        )
    }
}

/// Exchanging one slot changes the pins by those of its cell.
pub proof fn lemma_hits_update(
    graph: UnifiedGraph<'_>,
    constraints: &PlacementConstraints,
    placed: Seq<Option<BelId>>,
    cell: int,
    slot: Option<BelId>,
    wire: WireId,
    net: NetId,
)
    requires
        0 <= cell < placed.len(),
    ensures
        placed_hits(graph, constraints, placed.update(cell, slot), wire, net) + cell_hits(
            graph,
            constraints,
            cell,
            placed[cell],
            wire,
            net,
        ) == placed_hits(graph, constraints, placed, wire, net) + cell_hits(
            graph,
            constraints,
            cell,
            slot,
            wire,
            net,
        ),
    decreases placed.len(),
{
    let after = placed.update(cell, slot);
    if cell == placed.len() - 1 {
        assert(after.drop_last() =~= placed.drop_last());
    } else {
        assert(after.drop_last() =~= placed.drop_last().update(cell, slot));
        lemma_hits_update(graph, constraints, placed.drop_last(), cell, slot, wire, net);
    }
}

/// Exchanging one slot changes the values by those of its cell.
pub proof fn lemma_values_update(
    constraints: &PlacementConstraints,
    placed: Seq<Option<BelId>>,
    cell: int,
    slot: Option<BelId>,
    site: SharedSite,
    value: u64,
)
    requires
        0 <= cell < placed.len(),
    ensures
        placed_values(constraints, placed.update(cell, slot), site, value) + slot_value(
            constraints,
            cell,
            placed[cell],
            site,
            value,
        ) == placed_values(constraints, placed, site, value) + slot_value(
            constraints,
            cell,
            slot,
            site,
            value,
        ),
    decreases placed.len(),
{
    let after = placed.update(cell, slot);
    if cell == placed.len() - 1 {
        assert(after.drop_last() =~= placed.drop_last());
    } else {
        assert(after.drop_last() =~= placed.drop_last().update(cell, slot));
        lemma_values_update(constraints, placed.drop_last(), cell, slot, site, value);
    }
}

/// A list of pins joins no more than it has.
pub proof fn lemma_hits_bound(
    graph: UnifiedGraph<'_>,
    constraints: &PlacementConstraints,
    pins: Seq<CellPinId>,
    bel: BelId,
    wire: WireId,
    net: NetId,
)
    ensures
        hits(graph, constraints, pins, bel, wire, net) <= pins.len(),
    decreases pins.len(),
{
    if pins.len() > 0 {
        lemma_hits_bound(graph, constraints, pins.drop_last(), bel, wire, net);
    }
}

/// The placed cells join few enough pins to be counted.
pub proof fn lemma_placed_bound(
    graph: UnifiedGraph<'_>,
    constraints: &PlacementConstraints,
    placed: Seq<Option<BelId>>,
    wire: WireId,
    net: NetId,
)
    requires
        placed.len() <= graph.design.cells@.len(),
    ensures
        placed_hits(graph, constraints, placed, wire, net) <= placed.len() * usize::MAX,
    decreases placed.len(),
{
    if placed.len() > 0 {
        let rest = placed.drop_last();
        lemma_placed_bound(graph, constraints, rest, wire, net);
        let cell = placed.len() - 1;
        let pins = graph.design.cells@[cell].pins;
        assert(pins@.len() == pins.len());
        if let Some(bel) = placed.last() {
            lemma_hits_bound(graph, constraints, pins@, bel, wire, net);
        }
        assert(rest.len() * usize::MAX + usize::MAX == placed.len() * usize::MAX)
            by (nonlinear_arith)
            requires
                placed.len() == rest.len() + 1,
        ;
    }
}

/// The placed cells put few enough values to be counted.
pub proof fn lemma_values_bound(
    constraints: &PlacementConstraints,
    placed: Seq<Option<BelId>>,
    site: SharedSite,
    value: u64,
)
    ensures
        placed_values(constraints, placed, site, value) <= placed.len(),
    decreases placed.len(),
{
    if placed.len() > 0 {
        lemma_values_bound(constraints, placed.drop_last(), site, value);
    }
}

/// Nets that placed cells join to the wire.
pub open spec fn wire_nets(
    graph: UnifiedGraph<'_>,
    constraints: &PlacementConstraints,
    placed: Seq<Option<BelId>>,
    wire: WireId,
) -> Set<NetId> {
    Set::new(|n: NetId| placed_hits(graph, constraints, placed, wire, n) > 0)
}

/// Every wire can carry the nets that placed cells join to it.
pub open spec fn wires_legal(
    graph: UnifiedGraph<'_>,
    constraints: &PlacementConstraints,
    placed: Seq<Option<BelId>>,
) -> bool {
    forall|w: WireId|
        w.0 < graph.device.wires@.len() ==> (#[trigger] wire_nets(
            graph,
            constraints,
            placed,
            w,
        )).len() <= graph.device.wires@[w.0 as int].capacity
}

/// All cells on one site have one value.
pub open spec fn sites_legal(
    constraints: &PlacementConstraints,
    placed: Seq<Option<BelId>>,
) -> bool {
    forall|s: SharedSite, v: u64, x: u64|
        #![trigger placed_values(constraints, placed, s, v), placed_values(constraints, placed, s, x)]
        placed_values(constraints, placed, s, v) > 0 && placed_values(constraints, placed, s, x) > 0
            ==> v == x
}

/// The placed cells share wires and sites legally.
pub open spec fn resources_legal(
    graph: UnifiedGraph<'_>,
    constraints: &PlacementConstraints,
    placed: Seq<Option<BelId>>,
) -> bool {
    wires_legal(graph, constraints, placed) && sites_legal(constraints, placed)
}

/// The slots with a row of cells placed.
pub open spec fn with_row(
    placed: Seq<Option<BelId>>,
    cells: Seq<CellId>,
    row: Seq<BelId>,
) -> Seq<Option<BelId>>
    decreases cells.len(),
{
    if cells.len() == 0 {
        placed
    } else {
        with_row(placed, cells.drop_last(), row.drop_last()).update(
            cells.last().0 as int,
            Some(row.last()),
        )
    }
}

/// The slots with some cells taken out.
pub open spec fn without_cells(placed: Seq<Option<BelId>>, cells: Seq<CellId>) -> Seq<
    Option<BelId>,
>
    decreases cells.len(),
{
    if cells.len() == 0 {
        placed
    } else {
        without_cells(placed, cells.drop_last()).update(cells.last().0 as int, None)
    }
}

/// Every cell of a list has a slot.
pub open spec fn cells_in_range(cells: Seq<CellId>, count: int) -> bool {
    forall|k: int| 0 <= k < cells.len() ==> (#[trigger] cells[k]).0 < count
}

/// Placing a row fills the slots of its cells and no other.
pub proof fn lemma_with_row(placed: Seq<Option<BelId>>, cells: Seq<CellId>, row: Seq<BelId>)
    requires
        cells.len() == row.len(),
        cells.no_duplicates(),
        cells_in_range(cells, placed.len() as int),
    ensures
        with_row(placed, cells, row).len() == placed.len(),
        forall|k: int|
            0 <= k < cells.len() ==> with_row(placed, cells, row)[(#[trigger] cells[k]).0 as int]
                == Some(row[k]),
        forall|c: int|
            0 <= c < placed.len() && !cells.contains(CellId(c as usize))
                ==> #[trigger] with_row(placed, cells, row)[c] == placed[c],
    decreases cells.len(),
{
    if cells.len() > 0 {
        let rest = cells.drop_last();
        let shorter = row.drop_last();
        assert forall|k: int| 0 <= k < rest.len() implies (#[trigger] rest[k]).0
            < placed.len() by {
            assert(rest[k] == cells[k]);
        }
        lemma_with_row(placed, rest, shorter);
        let earlier = with_row(placed, rest, shorter);
        let later = with_row(placed, cells, row);
        assert(cells.last().0 < placed.len());
        assert forall|k: int| 0 <= k < cells.len() implies later[(#[trigger] cells[k]).0 as int]
            == Some(row[k]) by {
            if k < rest.len() {
                assert(rest[k] == cells[k]);
                assert(cells[k] != cells[cells.len() - 1]);
                assert(earlier[rest[k].0 as int] == Some(shorter[k]));
            }
        }
        assert forall|c: int| 0 <= c < placed.len() && !cells.contains(CellId(c as usize)) implies
        #[trigger] later[c] == placed[c] by {
            assert(cells.contains(cells.last()));
            if rest.contains(CellId(c as usize)) {
                let k = rest.index_of(CellId(c as usize));
                assert(cells[k] == CellId(c as usize));
            }
            assert(earlier[c] == placed[c]);
            assert(cells.last().0 != c) by {
                if cells.last().0 == c {
                    assert(CellId(c as usize) == cells.last());
                }
            }
        }
    }
}

/// Taking cells out empties their slots and no other.
pub proof fn lemma_without_cells(placed: Seq<Option<BelId>>, cells: Seq<CellId>)
    requires
        cells_in_range(cells, placed.len() as int),
    ensures
        without_cells(placed, cells).len() == placed.len(),
        forall|k: int|
            0 <= k < cells.len() ==> without_cells(placed, cells)[(#[trigger] cells[k]).0 as int]
                is None,
        forall|c: int|
            0 <= c < placed.len() && !cells.contains(CellId(c as usize))
                ==> #[trigger] without_cells(placed, cells)[c] == placed[c],
    decreases cells.len(),
{
    if cells.len() > 0 {
        let rest = cells.drop_last();
        assert forall|k: int| 0 <= k < rest.len() implies (#[trigger] rest[k]).0
            < placed.len() by {
            assert(rest[k] == cells[k]);
        }
        lemma_without_cells(placed, rest);
        let earlier = without_cells(placed, rest);
        let later = without_cells(placed, cells);
        assert(cells.last().0 < placed.len());
        assert forall|k: int| 0 <= k < cells.len() implies later[(#[trigger] cells[k]).0 as int]
            is None by {
            if k < rest.len() {
                assert(rest[k] == cells[k]);
                assert(earlier[rest[k].0 as int] is None);
            }
        }
        assert forall|c: int| 0 <= c < placed.len() && !cells.contains(CellId(c as usize)) implies
        #[trigger] later[c] == placed[c] by {
            assert(cells.contains(cells.last()));
            if rest.contains(CellId(c as usize)) {
                let k = rest.index_of(CellId(c as usize));
                assert(cells[k] == CellId(c as usize));
            }
            assert(earlier[c] == placed[c]);
            assert(cells.last().0 != c) by {
                if cells.last().0 == c {
                    assert(CellId(c as usize) == cells.last());
                }
            }
        }
    }
}

/// Placing a row after taking its cells out restores what they had there.
pub proof fn lemma_row_restores(placed: Seq<Option<BelId>>, cells: Seq<CellId>, row: Seq<BelId>)
    requires
        cells.len() == row.len(),
        cells.no_duplicates(),
        cells_in_range(cells, placed.len() as int),
        placed.len() <= usize::MAX,
        forall|k: int|
            0 <= k < cells.len() ==> placed[(#[trigger] cells[k]).0 as int] == Some(row[k]),
    ensures
        with_row(without_cells(placed, cells), cells, row) == placed,
{
    let emptied = without_cells(placed, cells);
    lemma_without_cells(placed, cells);
    lemma_with_row(emptied, cells, row);
    let filled = with_row(emptied, cells, row);
    assert forall|c: int| 0 <= c < placed.len() implies filled[c] == placed[c] by {
        let cell = CellId(c as usize);
        if cells.contains(cell) {
            let k = cells.index_of(cell);
            assert(cells[k] == cell);
            assert(filled[cells[k].0 as int] == Some(row[k]));
            assert(placed[cells[k].0 as int] == Some(row[k]));
        } else {
            assert(emptied[c] == placed[c]);
            assert(filled[c] == emptied[c]);
        }
    }
    assert(filled =~= placed);
}

} // verus!
