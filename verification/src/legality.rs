//! Whether an assignment shares wires and sites legally with what is placed.

use vstd::prelude::*;

use crate::candidates::{bindings_in_range, candidate_pin_wire, choice_pin, choice_wire};
use crate::device::UnifiedGraph;
use crate::model::{BelId, CellId, CellPinId, NetId, WireId};
use crate::placement_constraints::PlacementConstraints;
use crate::usage::{tally, update_placement_resource_usage, PlacementResourceUsage};
use crate::usage_model::{
    cells_in_range, hits, lemma_hits_update, lemma_values_update, lemma_with_row,
    lemma_without_cells, pin_hits, placed_hits, placed_values, puts_value, resources_legal,
    wire_nets, with_row, without_cells, SharedSite,
};

verus! {

/// The cell on the BEL joins some net to the wire.
pub open spec fn cell_touches(
    graph: UnifiedGraph<'_>,
    constraints: &PlacementConstraints,
    cell: CellId,
    bel: BelId,
    wire: WireId,
) -> bool {
    exists|j: int|
        {
            let pin = graph.design.cells@[cell.0 as int].pins@[j];
            &&& 0 <= j < graph.design.cells@[cell.0 as int].pins@.len()
            &&& graph.design.pins@[(
            #[trigger] graph.design.cells@[cell.0 as int].pins@[j]).0 as int].net is Some
            &&& choice_wire(
                graph,
                constraints,
                graph.design.cells@[cell.0 as int].pins@[j],
                bel,
            ) == Some(wire)
        }
}

/// The row joins some net to the wire.
pub open spec fn touches_wire(
    graph: UnifiedGraph<'_>,
    constraints: &PlacementConstraints,
    cells: Seq<CellId>,
    row: Seq<BelId>,
    wire: WireId,
) -> bool {
    exists|k: int|
        0 <= k < cells.len() && cell_touches(graph, constraints, #[trigger] cells[k], row[k], wire)
}

/// The row puts some value on the site.
pub open spec fn touches_site(
    constraints: &PlacementConstraints,
    cells: Seq<CellId>,
    row: Seq<BelId>,
    site: SharedSite,
) -> bool {
    exists|k: int, v: u64|
        0 <= k < cells.len() && #[trigger] puts_value(constraints, cells[k], row[k], site, v)
}

/// With the row placed, the wires it joins carry what they can and each of its
/// sites has one value.
pub open spec fn row_is_legal(
    graph: UnifiedGraph<'_>,
    constraints: &PlacementConstraints,
    placed: Seq<Option<BelId>>,
    cells: Seq<CellId>,
    row: Seq<BelId>,
) -> bool {
    let after = with_row(placed, cells, row);
    &&& forall|w: WireId| #[trigger]
        touches_wire(graph, constraints, cells, row, w) ==> wire_nets(
            graph,
            constraints,
            after,
            w,
        ).len() <= graph.device.wires@[w.0 as int].capacity
    &&& forall|s: SharedSite| #[trigger]
        touches_site(constraints, cells, row, s) ==> one_value(constraints, after, s)
}

/// The site has at most one value.
pub open spec fn one_value(
    constraints: &PlacementConstraints,
    placed: Seq<Option<BelId>>,
    site: SharedSite,
) -> bool {
    forall|v: u64, x: u64|
        #![trigger placed_values(constraints, placed, site, v), placed_values(constraints, placed, site, x)]
        placed_values(constraints, placed, site, v) > 0 && placed_values(
            constraints,
            placed,
            site,
            x,
        ) > 0 ==> v == x
}

/// Pins that join nothing to the wire are not counted.
proof fn lemma_no_hits(
    graph: UnifiedGraph<'_>,
    constraints: &PlacementConstraints,
    pins: Seq<CellPinId>,
    bel: BelId,
    wire: WireId,
    net: NetId,
)
    requires
        forall|j: int|
            0 <= j < pins.len() ==> !pin_hits(
                graph,
                constraints,
                #[trigger] pins[j],
                bel,
                wire,
                net,
            ),
    ensures
        hits(graph, constraints, pins, bel, wire, net) == 0,
    decreases pins.len(),
{
    if pins.len() > 0 {
        let rest = pins.drop_last();
        assert forall|j: int| 0 <= j < rest.len() implies !pin_hits(
            graph,
            constraints,
            #[trigger] rest[j],
            bel,
            wire,
            net,
        ) by {
            assert(rest[j] == pins[j]);
        }
        lemma_no_hits(graph, constraints, rest, bel, wire, net);
        assert(!pin_hits(graph, constraints, pins[pins.len() - 1], bel, wire, net));
    }
}

/// A row does not change the wires and sites that it does not touch.
proof fn lemma_untouched(
    graph: UnifiedGraph<'_>,
    constraints: &PlacementConstraints,
    placed: Seq<Option<BelId>>,
    cells: Seq<CellId>,
    row: Seq<BelId>,
)
    requires
        cells.len() == row.len(),
        cells.no_duplicates(),
        cells_in_range(cells, placed.len() as int),
        placed.len() <= usize::MAX,
        forall|k: int| 0 <= k < cells.len() ==> placed[(#[trigger] cells[k]).0 as int] is None,
    ensures
        forall|w: WireId, n: NetId|
            !touches_wire(graph, constraints, cells, row, w) ==> #[trigger] placed_hits(
                graph,
                constraints,
                with_row(placed, cells, row),
                w,
                n,
            ) == placed_hits(graph, constraints, placed, w, n),
        forall|s: SharedSite, v: u64|
            !touches_site(constraints, cells, row, s) ==> #[trigger] placed_values(
                constraints,
                with_row(placed, cells, row),
                s,
                v,
            ) == placed_values(constraints, placed, s, v),
    decreases cells.len(),
{
    if cells.len() > 0 {
        let rest = cells.drop_last();
        let shorter = row.drop_last();
        let cell = cells.last();
        let bel = row.last();
        assert(cells_in_range(rest, placed.len() as int)) by {
            assert forall|k: int| 0 <= k < rest.len() implies (#[trigger] rest[k]).0
                < placed.len() by {
                assert(rest[k] == cells[k]);
            }
        }
        assert forall|k: int| 0 <= k < rest.len() implies placed[(#[trigger] rest[k]).0 as int]
            is None by {
            assert(rest[k] == cells[k]);
        }
        lemma_untouched(graph, constraints, placed, rest, shorter);
        lemma_with_row(placed, rest, shorter);
        let earlier = with_row(placed, rest, shorter);
        let later = with_row(placed, cells, row);
        assert(cells[cells.len() - 1].0 < placed.len());
        assert(!rest.contains(cell)) by {
            if rest.contains(cell) {
                let k = rest.index_of(cell);
                assert(cells[k] == cells[cells.len() - 1]);
            }
        }
        assert(CellId(cell.0 as int as usize) == cell);
        assert(earlier[cell.0 as int] is None);
        assert(placed[cells[cells.len() - 1].0 as int] is None);
        assert forall|w: WireId, n: NetId|
            !touches_wire(graph, constraints, cells, row, w) implies #[trigger] placed_hits(
            graph,
            constraints,
            later,
            w,
            n,
        ) == placed_hits(graph, constraints, placed, w, n) by {
            if touches_wire(graph, constraints, rest, shorter, w) {
                let k = choose|k: int|
                    0 <= k < rest.len() && cell_touches(
                        graph,
                        constraints,
                        #[trigger] rest[k],
                        shorter[k],
                        w,
                    );
                assert(cell_touches(graph, constraints, cells[k], row[k], w));
            }
            assert(!cell_touches(graph, constraints, cells[cells.len() - 1], bel, w));
            let pins = graph.design.cells@[cell.0 as int].pins@;
            assert forall|j: int| 0 <= j < pins.len() implies !pin_hits(
                graph,
                constraints,
                #[trigger] pins[j],
                bel,
                w,
                n,
            ) by {
                if pin_hits(graph, constraints, pins[j], bel, w, n) {
                    assert(graph.design.pins@[(
                    graph.design.cells@[cell.0 as int].pins@[j]).0 as int].net is Some);
                }
            }
            lemma_no_hits(graph, constraints, pins, bel, w, n);
            lemma_hits_update(graph, constraints, earlier, cell.0 as int, Some(bel), w, n);
        }
        assert forall|s: SharedSite, v: u64|
            !touches_site(constraints, cells, row, s) implies #[trigger] placed_values(
            constraints,
            later,
            s,
            v,
        ) == placed_values(constraints, placed, s, v) by {
            if touches_site(constraints, rest, shorter, s) {
                let (k, x) = choose|k: int, x: u64|
                    0 <= k < rest.len() && #[trigger] puts_value(
                        constraints,
                        rest[k],
                        shorter[k],
                        s,
                        x,
                    );
                assert(puts_value(constraints, cells[k], row[k], s, x));
            }
            assert(!puts_value(constraints, cells[cells.len() - 1], row[cells.len() - 1], s, v));
            lemma_values_update(constraints, earlier, cell.0 as int, Some(bel), s, v);
        }
    }
}

/// A legal row keeps what is placed legal, and only a legal row does.
pub proof fn legal_row_keeps_placement_legal(
    graph: UnifiedGraph<'_>,
    constraints: &PlacementConstraints,
    placed: Seq<Option<BelId>>,
    cells: Seq<CellId>,
    row: Seq<BelId>,
)
    requires
        graph.wf(),
        bindings_in_range(graph, constraints),
        cells.len() == row.len(),
        cells.no_duplicates(),
        cells_in_range(cells, placed.len() as int),
        placed.len() <= usize::MAX,
        forall|k: int| 0 <= k < cells.len() ==> placed[(#[trigger] cells[k]).0 as int] is None,
        resources_legal(graph, constraints, placed),
    ensures
        row_is_legal(graph, constraints, placed, cells, row) == resources_legal(
            graph,
            constraints,
            with_row(placed, cells, row),
        ),
{
    let after = with_row(placed, cells, row);
    lemma_untouched(graph, constraints, placed, cells, row);
    if row_is_legal(graph, constraints, placed, cells, row) {
        assert forall|w: WireId| w.0 < graph.device.wires@.len() implies (#[trigger] wire_nets(
            graph,
            constraints,
            after,
            w,
        )).len() <= graph.device.wires@[w.0 as int].capacity by {
            if !touches_wire(graph, constraints, cells, row, w) {
                assert(wire_nets(graph, constraints, after, w) =~= wire_nets(
                    graph,
                    constraints,
                    placed,
                    w,
                ));
            }
        }
        assert forall|s: SharedSite, v: u64, x: u64|
            #![trigger placed_values(constraints, after, s, v), placed_values(constraints, after, s, x)]
            placed_values(constraints, after, s, v) > 0 && placed_values(
                constraints,
                after,
                s,
                x,
            ) > 0 implies v == x by {
            if !touches_site(constraints, cells, row, s) {
                assert(placed_values(constraints, placed, s, v) > 0);
                assert(placed_values(constraints, placed, s, x) > 0);
            } else {
                assert(one_value(constraints, after, s));
            }
        }
    }
    if resources_legal(graph, constraints, after) {
        assert forall|w: WireId| #[trigger]
            touches_wire(graph, constraints, cells, row, w) implies wire_nets(
            graph,
            constraints,
            after,
            w,
        ).len() <= graph.device.wires@[w.0 as int].capacity by {
            let k = choose|k: int|
                0 <= k < cells.len() && cell_touches(
                    graph,
                    constraints,
                    #[trigger] cells[k],
                    row[k],
                    w,
                );
            let j = choose|j: int|
                {
                    &&& 0 <= j < graph.design.cells@[cells[k].0 as int].pins@.len()
                    &&& graph.design.pins@[(
                    #[trigger] graph.design.cells@[cells[k].0 as int].pins@[j]).0 as int].net
                        is Some
                    &&& choice_wire(
                        graph,
                        constraints,
                        graph.design.cells@[cells[k].0 as int].pins@[j],
                        row[k],
                    ) == Some(w)
                };
            let pin = graph.design.cells@[cells[k].0 as int].pins@[j];
            let found = choice_pin(graph, constraints, pin, row[k])->0;
            assert(graph.device.bel_pins@[found.0 as int].wire == w);
        }
        assert forall|s: SharedSite| #[trigger]
            touches_site(constraints, cells, row, s) implies one_value(constraints, after, s) by {}
    }
}

/// Whether every wire that the cell joins carries what it can.
fn cell_wires_fit(
    graph: &UnifiedGraph<'_>,
    constraints: &PlacementConstraints,
    cell: CellId,
    bel: BelId,
    usage: &PlacementResourceUsage,
    Ghost(placed): Ghost<Seq<Option<BelId>>>,
) -> (result: bool)
    requires
        graph.wf(),
        constraints.wf(),
        bindings_in_range(*graph, constraints),
        cell.0 < graph.design.cells@.len(),
        usage.tracks(*graph, constraints, placed),
    ensures
        result == forall|w: WireId| #[trigger]
            cell_touches(*graph, constraints, cell, bel, w) ==> wire_nets(
                *graph,
                constraints,
                placed,
                w,
            ).len() <= graph.device.wires@[w.0 as int].capacity,
{
    let pins = &graph.design().cells[cell.0].pins;
    let mut index: usize = 0;
    while index < pins.len()
        invariant
            index <= pins@.len(),
            graph.wf(),
            constraints.wf(),
            bindings_in_range(*graph, constraints),
            cell.0 < graph.design.cells@.len(),
            pins@ == graph.design.cells@[cell.0 as int].pins@,
            usage.tracks(*graph, constraints, placed),
            forall|j: int|
                0 <= j < index ==> pin_wire_fits(
                    *graph,
                    constraints,
                    #[trigger] pins@[j],
                    bel,
                    placed,
                ),
        decreases pins@.len() - index,
    {
        let pin = pins[index];
        assert(graph.design.cells@[cell.0 as int].pins@[index as int] == pin);
        if graph.design().pins[pin.0].net.is_some() {
            if let Some(wire) = candidate_pin_wire(graph, constraints, pin, bel) {
                let count: usize = usage.pin_wires[wire.0].len();
                proof {
                    lemma_tracked_nets(*graph, constraints, usage, placed, wire);
                }
                if count > graph.device().wires[wire.0].capacity as usize {
                    proof {
                        let j = index as int;
                        assert(graph.design.pins@[(
                        graph.design.cells@[cell.0 as int].pins@[j]).0 as int].net is Some);
                        assert(cell_touches(*graph, constraints, cell, bel, wire));
                    }
                    return false;
                }
            }
        }
        index = index + 1;
    }
    proof {
        assert forall|w: WireId| #[trigger]
            cell_touches(*graph, constraints, cell, bel, w) implies wire_nets(
            *graph,
            constraints,
            placed,
            w,
        ).len() <= graph.device.wires@[w.0 as int].capacity by {
            let j = choose|j: int|
                {
                    &&& 0 <= j < graph.design.cells@[cell.0 as int].pins@.len()
                    &&& graph.design.pins@[(
                    #[trigger] graph.design.cells@[cell.0 as int].pins@[j]).0 as int].net is Some
                    &&& choice_wire(
                        *graph,
                        constraints,
                        graph.design.cells@[cell.0 as int].pins@[j],
                        bel,
                    ) == Some(w)
                };
            assert(pin_wire_fits(*graph, constraints, pins@[j], bel, placed));
        }
    }
    true
}

/// The wire that the pin takes carries what it can.
spec fn pin_wire_fits(
    graph: UnifiedGraph<'_>,
    constraints: &PlacementConstraints,
    pin: CellPinId,
    bel: BelId,
    placed: Seq<Option<BelId>>,
) -> bool {
    graph.design.pins@[pin.0 as int].net is Some ==> (choice_wire(
        graph,
        constraints,
        pin,
        bel,
    ) matches Some(w) ==> wire_nets(graph, constraints, placed, w).len()
        <= graph.device.wires@[w.0 as int].capacity)
}

/// The tracked table of a wire lists the nets that placed cells join to it.
proof fn lemma_tracked_nets(
    graph: UnifiedGraph<'_>,
    constraints: &PlacementConstraints,
    usage: &PlacementResourceUsage,
    placed: Seq<Option<BelId>>,
    wire: WireId,
)
    requires
        usage.tracks(graph, constraints, placed),
        wire.0 < graph.device.wires@.len(),
    ensures
        usage.pin_wires@[wire.0 as int].ordered().len() == wire_nets(
            graph,
            constraints,
            placed,
            wire,
        ).len(),
{
    let table = usage.pin_wires@[wire.0 as int];
    assert(table.wf());
    table.lemma_size();
    assert forall|n: NetId| table@.dom().contains(n) <==> wire_nets(
        graph,
        constraints,
        placed,
        wire,
    ).contains(n) by {
        assert(usage.pins(wire, n) == placed_hits(graph, constraints, placed, wire, n));
    }
    assert(table@.dom() =~= wire_nets(graph, constraints, placed, wire));
}

/// Whether every site that the cell touches has one value.
fn cell_sites_fit(
    constraints: &PlacementConstraints,
    cell: CellId,
    bel: BelId,
    usage: &PlacementResourceUsage,
    Ghost(graph): Ghost<UnifiedGraph<'_>>,
    Ghost(placed): Ghost<Seq<Option<BelId>>>,
) -> (result: bool)
    requires
        constraints.wf(),
        usage.tracks(graph, constraints, placed),
    ensures
        result == forall|s: SharedSite, v: u64| #[trigger]
            puts_value(constraints, cell, bel, s, v) ==> one_value(constraints, placed, s),
{
    let mut index: usize = 0;
    while index < constraints.shared_resources.len()
        invariant
            index <= constraints.shared_resources@.len(),
            constraints.wf(),
            usage.tracks(graph, constraints, placed),
            forall|s: SharedSite, v: u64| #[trigger]
                puts_value(constraints, cell, bel, s, v) && s.rule < index ==> one_value(
                    constraints,
                    placed,
                    s,
                ),
        decreases constraints.shared_resources@.len() - index,
    {
        let rule = &constraints.shared_resources[index];
        assert(constraints.shared_resources@[index as int].wf());
        if let Some(value) = rule.cell_values.get(cell) {
            if let Some(resource) = rule.bel_resources.get(bel) {
                let site = SharedSite { rule: index, resource: *resource };
                assert(puts_value(constraints, cell, bel, site, *value));
                if let Some(table) = usage.shared.get(site) {
                    proof {
                        lemma_tracked_values(graph, constraints, usage, placed, site);
                    }
                    if table.len() > 1 {
                        return false;
                    }
                } else {
                    proof {
                        assert(one_value(constraints, placed, site)) by {
                            assert forall|v: u64| #[trigger]
                                placed_values(constraints, placed, site, v) == 0 by {
                                assert(usage.values(site, v) == placed_values(
                                    constraints,
                                    placed,
                                    site,
                                    v,
                                ));
                            }
                        }
                    }
                }
            }
        }
        index = index + 1;
    }
    true
}

/// The tracked table of a site lists its values.
proof fn lemma_tracked_values(
    graph: UnifiedGraph<'_>,
    constraints: &PlacementConstraints,
    usage: &PlacementResourceUsage,
    placed: Seq<Option<BelId>>,
    site: SharedSite,
)
    requires
        usage.tracks(graph, constraints, placed),
        usage.shared@.contains_key(site),
    ensures
        (usage.shared@[site].ordered().len() <= 1) == one_value(constraints, placed, site),
{
    let table = usage.shared@[site];
    assert(table.wf());
    if table.ordered().len() <= 1 {
        assert forall|v: u64, x: u64|
            #![trigger placed_values(constraints, placed, site, v), placed_values(constraints, placed, site, x)]
            placed_values(constraints, placed, site, v) > 0 && placed_values(
                constraints,
                placed,
                site,
                x,
            ) > 0 implies v == x by {
            assert(usage.values(site, v) == placed_values(constraints, placed, site, v));
            assert(usage.values(site, x) == placed_values(constraints, placed, site, x));
            assert(tally(table@, v) > 0);
            assert(tally(table@, x) > 0);
            let i = table.key_index(v);
            let j = table.key_index(x);
        }
    } else {
        let v = table.ordered()[0];
        let x = table.ordered()[1];
        table.entry(0);
        table.entry(1);
        assert(table@[v] > 0);
        assert(table@[x] > 0);
        assert(usage.values(site, v) == placed_values(constraints, placed, site, v));
        assert(usage.values(site, x) == placed_values(constraints, placed, site, x));
        if one_value(constraints, placed, site) {
            assert(v == x);
            assert(crate::ordered::increasing(table.ordered()));
        }
    }
}

/// Whether placing the row is legal; the usage is left as it was.
pub(crate) fn assignment_resources_are_legal(
    graph: &UnifiedGraph<'_>,
    constraints: &PlacementConstraints,
    cells: &Vec<CellId>,
    assignment: &Vec<BelId>,
    usage: &mut PlacementResourceUsage,
    Ghost(placed): Ghost<Seq<Option<BelId>>>,
) -> (result: bool)
    requires
        graph.wf(),
        constraints.wf(),
        bindings_in_range(*graph, constraints),
        cells@.len() == assignment@.len(),
        cells@.no_duplicates(),
        cells_in_range(cells@, graph.design.cells@.len() as int),
        old(usage).tracks(*graph, constraints, placed),
        forall|k: int| 0 <= k < cells@.len() ==> placed[(#[trigger] cells@[k]).0 as int] is None,
    ensures
        final(usage).tracks(*graph, constraints, placed),
        result == row_is_legal(*graph, constraints, placed, cells@, assignment@),
{
    let ghost after = with_row(placed, cells@, assignment@);
    update_placement_resource_usage(
        graph,
        constraints,
        cells,
        assignment,
        usage,
        true,
        Ghost(placed),
    );
    let mut legal = true;
    let mut index: usize = 0;
    while index < cells.len()
        invariant
            index <= cells@.len(),
            graph.wf(),
            constraints.wf(),
            bindings_in_range(*graph, constraints),
            cells@.len() == assignment@.len(),
            cells_in_range(cells@, graph.design.cells@.len() as int),
            usage.tracks(*graph, constraints, after),
            legal ==> forall|k: int|
                0 <= k < index ==> cell_fits(
                    *graph,
                    constraints,
                    after,
                    #[trigger] cells@[k],
                    assignment@[k],
                ),
            !legal ==> exists|k: int|
                0 <= k < index && !cell_fits(
                    *graph,
                    constraints,
                    after,
                    #[trigger] cells@[k],
                    assignment@[k],
                ),
        decreases cells@.len() - index,
    {
        assert(cells@[index as int].0 < graph.design.cells@.len());
        let wires = cell_wires_fit(
            graph,
            constraints,
            cells[index],
            assignment[index],
            usage,
            Ghost(after),
        );
        let sites = cell_sites_fit(
            constraints,
            cells[index],
            assignment[index],
            usage,
            Ghost(*graph),
            Ghost(after),
        );
        if !wires || !sites {
            assert(!cell_fits(
                *graph,
                constraints,
                after,
                cells@[index as int],
                assignment@[index as int],
            ));
            legal = false;
        }
        index = index + 1;
    }
    proof {
        assert(graph.design.cells.len() == graph.design.cells@.len());
        lemma_with_row(placed, cells@, assignment@);
        if legal {
            assert forall|w: WireId| #[trigger]
                touches_wire(*graph, constraints, cells@, assignment@, w) implies wire_nets(
                *graph,
                constraints,
                after,
                w,
            ).len() <= graph.device.wires@[w.0 as int].capacity by {
                let k = choose|k: int|
                    0 <= k < cells@.len() && cell_touches(
                        *graph,
                        constraints,
                        #[trigger] cells@[k],
                        assignment@[k],
                        w,
                    );
                assert(cell_fits(*graph, constraints, after, cells@[k], assignment@[k]));
            }
            assert forall|s: SharedSite| #[trigger]
                touches_site(constraints, cells@, assignment@, s) implies one_value(
                constraints,
                after,
                s,
            ) by {
                let (k, v) = choose|k: int, v: u64|
                    0 <= k < cells@.len() && #[trigger] puts_value(
                        constraints,
                        cells@[k],
                        assignment@[k],
                        s,
                        v,
                    );
                assert(cell_fits(*graph, constraints, after, cells@[k], assignment@[k]));
            }
        } else {
            let k = choose|k: int|
                0 <= k < cells@.len() && !cell_fits(
                    *graph,
                    constraints,
                    after,
                    #[trigger] cells@[k],
                    assignment@[k],
                );
            if row_is_legal(*graph, constraints, placed, cells@, assignment@) {
                assert forall|w: WireId| #[trigger]
                    cell_touches(*graph, constraints, cells@[k], assignment@[k], w) implies wire_nets(
                    *graph,
                    constraints,
                    after,
                    w,
                ).len() <= graph.device.wires@[w.0 as int].capacity by {
                    assert(touches_wire(*graph, constraints, cells@, assignment@, w));
                }
                assert forall|s: SharedSite, v: u64| #[trigger]
                    puts_value(constraints, cells@[k], assignment@[k], s, v) implies one_value(
                    constraints,
                    after,
                    s,
                ) by {
                    assert(touches_site(constraints, cells@, assignment@, s));
                }
            }
        }
        lemma_cleared(placed, cells@, assignment@);
    }
    update_placement_resource_usage(
        graph,
        constraints,
        cells,
        assignment,
        usage,
        false,
        Ghost(after),
    );
    legal
}

/// The cell on the BEL joins wires that carry what they can, and sites with one value.
spec fn cell_fits(
    graph: UnifiedGraph<'_>,
    constraints: &PlacementConstraints,
    placed: Seq<Option<BelId>>,
    cell: CellId,
    bel: BelId,
) -> bool {
    &&& forall|w: WireId| #[trigger]
        cell_touches(graph, constraints, cell, bel, w) ==> wire_nets(
            graph,
            constraints,
            placed,
            w,
        ).len() <= graph.device.wires@[w.0 as int].capacity
    &&& forall|s: SharedSite, v: u64| #[trigger]
        puts_value(constraints, cell, bel, s, v) ==> one_value(constraints, placed, s)
}

/// Taking a row out again leaves what was placed before.
pub proof fn lemma_cleared(placed: Seq<Option<BelId>>, cells: Seq<CellId>, row: Seq<BelId>)
    requires
        cells.len() == row.len(),
        cells.no_duplicates(),
        cells_in_range(cells, placed.len() as int),
        placed.len() <= usize::MAX,
        forall|k: int| 0 <= k < cells.len() ==> placed[(#[trigger] cells[k]).0 as int] is None,
    ensures
        without_cells(with_row(placed, cells, row), cells) == placed,
{
    let after = with_row(placed, cells, row);
    lemma_with_row(placed, cells, row);
    lemma_without_cells(after, cells);
    let back = without_cells(after, cells);
    assert forall|c: int| 0 <= c < placed.len() implies back[c] == placed[c] by {
        let cell = CellId(c as usize);
        if cells.contains(cell) {
            let k = cells.index_of(cell);
            assert(cells[k] == cell);
            assert(back[cells[k].0 as int] is None);
            assert(placed[cells[k].0 as int] is None);
        } else {
            assert(after[c] == placed[c]);
            assert(back[c] == after[c]);
        }
    }
    assert(back =~= placed);
}

} // verus!
