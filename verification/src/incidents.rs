//! Nets and critical arcs that each unit touches.

use vstd::prelude::*;

use crate::device::UnifiedGraph;
use crate::model::{CellId, Connection, Design, NetId};
use crate::net_span::{driver_cell, lemma_endpoints, net_cells};
use crate::ordered::{increasing, OrderedKey, OrderedMap};
use crate::placement_constraints::PlacementConstraints;
use crate::targets::{arcs_in_range, sink_cell, TimingArc};
use crate::unit_list::{is_covered, units_disjoint};
use crate::units::PlacementUnit;

verus! {

/// Nets and critical arcs that a unit touches.
pub struct DetailedPlacementIncident {
    /// Nets, in increasing order.
    pub nets: Vec<NetId>,
    /// Positions of arcs, in increasing order.
    pub timing_arcs: Vec<usize>,
}

/// A cell of the net is one of the cells.
pub open spec fn touches_net(design: &Design, cells: Seq<CellId>, net: int) -> bool {
    exists|k: int|
        0 <= k < net_cells(design, net).len() && cells.contains(#[trigger] net_cells(design, net)[k])
}

/// An end of the arc is one of the cells.
pub open spec fn touches_arc(graph: UnifiedGraph<'_>, cells: Seq<CellId>, timing: TimingArc) -> bool {
    cells.contains(driver_cell(graph.design, timing.arc.net.0 as int)) || cells.contains(
        sink_cell(graph, timing.arc),
    )
}

/// The incident lists what the cells touch.
pub open spec fn is_incident(
    graph: UnifiedGraph<'_>,
    cells: Seq<CellId>,
    arcs: Seq<TimingArc>,
    incident: DetailedPlacementIncident,
) -> bool {
    &&& increasing(incident.nets@)
    &&& forall|n: NetId| #[trigger]
        incident.nets@.contains(n) <==> n.0 < graph.design.nets@.len() && touches_net(
            graph.design,
            cells,
            n.0 as int,
        )
    &&& increasing(incident.timing_arcs@)
    &&& forall|i: usize| #[trigger]
        incident.timing_arcs@.contains(i) <==> i < arcs.len() && touches_arc(
            graph,
            cells,
            arcs[i as int],
        )
}

/// The arc is one of the design and more critical than the baseline.
pub open spec fn is_timed(
    graph: UnifiedGraph<'_>,
    criticalities: Map<Connection, u64>,
    arc: Connection,
) -> bool {
    &&& criticalities.contains_key(arc)
    &&& criticalities[arc] > 1
    &&& arc.net.0 < graph.design.nets@.len()
    &&& arc.sink.0 < graph.design.pins@.len()
}

/// The arc is listed.
pub open spec fn has_arc(arcs: Seq<TimingArc>, arc: Connection) -> bool {
    exists|i: int| 0 <= i < arcs.len() && (#[trigger] arcs[i]).arc == arc
}

/// The list holds the critical arcs, in increasing order.
pub open spec fn are_timed_arcs(
    graph: UnifiedGraph<'_>,
    criticalities: Map<Connection, u64>,
    arcs: Seq<TimingArc>,
) -> bool {
    &&& forall|i: int, j: int|
        0 <= i < j < arcs.len() ==> (#[trigger] arcs[i]).arc.rank() < (
        #[trigger] arcs[j]).arc.rank()
    &&& forall|i: int|
        0 <= i < arcs.len() ==> is_timed(graph, criticalities, (#[trigger] arcs[i]).arc)
            && arcs[i].criticality == criticalities[arcs[i].arc]
    &&& forall|arc: Connection| #[trigger]
        is_timed(graph, criticalities, arc) ==> has_arc(arcs, arc)
}

/// Lists the critical arcs.
pub fn timed_arcs(graph: &UnifiedGraph<'_>, criticalities: &OrderedMap<Connection, u64>) -> (result:
    Vec<TimingArc>)
    requires
        criticalities.wf(),
    ensures
        are_timed_arcs(*graph, criticalities@, result@),
        arcs_in_range(*graph, result@),
{
    let design = graph.design();
    let mut arcs: Vec<TimingArc> = Vec::new();
    let mut index: usize = 0;
    let ghost keys = criticalities.ordered();
    while index < criticalities.len()
        invariant
            index <= keys.len(),
            keys == criticalities.ordered(),
            criticalities.wf(),
            design == graph.design,
            forall|i: int, j: int|
                0 <= i < j < arcs@.len() ==> (#[trigger] arcs@[i]).arc.rank() < (
                #[trigger] arcs@[j]).arc.rank(),
            forall|i: int|
                0 <= i < arcs@.len() ==> is_timed(
                    *graph,
                    criticalities@,
                    (#[trigger] arcs@[i]).arc,
                ) && arcs@[i].criticality == criticalities@[arcs@[i].arc] && (index < keys.len()
                    ==> arcs@[i].arc.rank() < keys[index as int].rank()),
            forall|k: int|
                0 <= k < index && is_timed(*graph, criticalities@, #[trigger] keys[k]) ==> has_arc(
                    arcs@,
                    keys[k],
                ),
        decreases keys.len() - index,
    {
        let arc = criticalities.key_at(index);
        let criticality: u64 = *criticalities.value_at(index);
        let ghost before = arcs@;
        proof {
            criticalities.entry(index as int);
            if index + 1 < keys.len() {
                assert(keys[index as int].rank() < keys[index + 1].rank());
            }
        }
        if criticality > 1 && arc.net.0 < design.nets.len() && arc.sink.0 < design.pins.len() {
            arcs.push(TimingArc { arc, criticality });
            proof {
                assert(arcs@[before.len() as int].arc == arc);
            }
        }
        proof {
            assert forall|k: int|
                0 <= k < index + 1 && is_timed(
                    *graph,
                    criticalities@,
                    #[trigger] keys[k],
                ) implies has_arc(arcs@, keys[k]) by {
                if k < index {
                    assert(has_arc(before, keys[k]));
                    let i = choose|i: int|
                        0 <= i < before.len() && (#[trigger] before[i]).arc == keys[k];
                    assert(arcs@[i].arc == keys[k]);
                }
            }
        }
        index = index + 1;
    }
    proof {
        assert forall|arc: Connection| #[trigger]
            is_timed(*graph, criticalities@, arc) implies has_arc(arcs@, arc) by {
            let k = criticalities.key_index(arc);
            assert(is_timed(*graph, criticalities@, keys[k]));
        }
    }
    arcs
}

/// The table names the unit of each cell.
spec fn names_unit(units: Seq<PlacementUnit>, owners: Seq<Option<usize>>) -> bool {
    forall|c: int|
        #![trigger owners[c]]
        0 <= c < owners.len() ==> (owners[c] matches Some(u) && u < units.len()
            && units[u as int].cells@.contains(CellId(c as usize)))
}

/// None of the first units holds the cell.
spec fn not_in_first(units: Seq<PlacementUnit>, count: int, cell: CellId) -> bool {
    forall|u: int| 0 <= u < count ==> !(#[trigger] units[u]).cells@.contains(cell)
}

/// None of the first cells is the cell.
spec fn not_first_cell(cells: Seq<CellId>, count: int, cell: CellId) -> bool {
    forall|k: int| 0 <= k < count ==> #[trigger] cells[k] != cell
}

/// Finds the unit of each cell.
fn cell_units(
    units: &Vec<PlacementUnit>,
    count: usize,
    Ghost(graph): Ghost<UnifiedGraph<'_>>,
    Ghost(constraints): Ghost<&PlacementConstraints>,
) -> (result: Vec<Option<usize>>)
    requires
        count == graph.design.cells@.len(),
        forall|u: int| 0 <= u < units@.len() ==> (#[trigger] units@[u]).wf(graph, constraints),
        forall|c: CellId| c.0 < count ==> #[trigger] is_covered(units@, c),
    ensures
        result@.len() == count,
        names_unit(units@, result@),
{
    let mut owners: Vec<Option<usize>> = Vec::new();
    let mut cell: usize = 0;
    while cell < count
        invariant
            cell <= count,
            owners@.len() == cell,
            forall|c: int| 0 <= c < owners@.len() ==> #[trigger] owners@[c] is None,
        decreases count - cell,
    {
        owners.push(None);
        cell = cell + 1;
    }
    let mut index: usize = 0;
    while index < units.len()
        invariant
            index <= units@.len(),
            count == graph.design.cells@.len(),
            forall|u: int| 0 <= u < units@.len() ==> (#[trigger] units@[u]).wf(graph, constraints),
            owners@.len() == count,
            forall|c: int|
                #![trigger owners@[c]]
                0 <= c < owners@.len() ==> match owners@[c] {
                    Some(u) => u < units@.len() && units@[u as int].cells@.contains(
                        CellId(c as usize),
                    ),
                    None => not_in_first(units@, index as int, CellId(c as usize)),
                },
        decreases units@.len() - index,
    {
        let unit = &units[index];
        assert(units@[index as int].wf(graph, constraints));
        let mut at: usize = 0;
        while at < unit.cells.len()
            invariant
                at <= unit.cells@.len(),
                index < units@.len(),
                *unit == units@[index as int],
                count == graph.design.cells@.len(),
                unit.wf(graph, constraints),
                owners@.len() == count,
                forall|c: int|
                    #![trigger owners@[c]]
                    0 <= c < owners@.len() ==> match owners@[c] {
                        Some(u) => u < units@.len() && units@[u as int].cells@.contains(
                            CellId(c as usize),
                        ),
                        None => not_in_first(units@, index as int, CellId(c as usize))
                            && not_first_cell(unit.cells@, at as int, CellId(c as usize)),
                    },
            decreases unit.cells@.len() - at,
        {
            let cell = unit.cells[at];
            assert(unit.cells@[at as int].0 < graph.design.cells@.len());
            let ghost before = owners@;
            owners.set(cell.0, Some(index));
            proof {
                assert(CellId((cell.0 as int) as usize) == cell);
                assert(owners@[cell.0 as int] == Some(index));
                assert(unit.cells@.contains(cell));
                assert forall|c: int|
                    #![trigger owners@[c]]
                    0 <= c < owners@.len() implies match owners@[c] {
                    Some(u) => u < units@.len() && units@[u as int].cells@.contains(
                        CellId(c as usize),
                    ),
                    None => not_in_first(units@, index as int, CellId(c as usize))
                        && not_first_cell(unit.cells@, at + 1, CellId(c as usize)),
                } by {
                    if c != cell.0 {
                        assert(owners@[c] == before[c]);
                        assert(CellId(c as usize).0 == c);
                    }
                }
            }
            at = at + 1;
        }
        proof {
            assert forall|c: int|
                #![trigger owners@[c]]
                0 <= c < owners@.len() implies match owners@[c] {
                Some(u) => u < units@.len() && units@[u as int].cells@.contains(
                    CellId(c as usize),
                ),
                None => not_in_first(units@, index + 1, CellId(c as usize)),
            } by {
                if owners@[c] is None {
                    assert forall|u: int| 0 <= u < index + 1 implies !(
                    #[trigger] units@[u]).cells@.contains(CellId(c as usize)) by {
                        if u == index && units@[u].cells@.contains(CellId(c as usize)) {
                            let k = unit.cells@.index_of(CellId(c as usize));
                            assert(unit.cells@[k] == CellId(c as usize));
                        }
                    }
                }
            }
        }
        index = index + 1;
    }
    proof {
        assert forall|c: int|
            #![trigger owners@[c]]
            0 <= c < owners@.len() implies (owners@[c] matches Some(u) && u < units@.len()
            && units@[u as int].cells@.contains(CellId(c as usize))) by {
            if owners@[c] is None {
                let id = CellId(c as usize);
                assert(id.0 == c);
                assert(is_covered(units@, id));
                let u = choose|u: int|
                    0 <= u < units@.len() && (#[trigger] units@[u]).cells@.contains(id);
                assert(!units@[u].cells@.contains(id));
            }
        }
    }
    owners
}

/// The first cells of a net include one of the cells.
spec fn touches_first(design: &Design, cells: Seq<CellId>, net: int, read: int) -> bool {
    exists|k: int|
        0 <= k < read && k < net_cells(design, net).len() && cells.contains(
            #[trigger] net_cells(design, net)[k],
        )
}

/// The lists hold the nets read so far.
spec fn lists_first(
    design: &Design,
    units: Seq<PlacementUnit>,
    lists: Seq<Vec<NetId>>,
    done: int,
    read: int,
) -> bool {
    &&& lists.len() == units.len()
    &&& forall|u: int| 0 <= u < lists.len() ==> increasing((#[trigger] lists[u])@)
    &&& forall|u: int, n: NetId|
        0 <= u < lists.len() ==> (#[trigger] lists[u]@.contains(n) <==> (n.0 < done && touches_net(
            design,
            units[u].cells@,
            n.0 as int,
        )) || (n.0 == done && touches_first(design, units[u].cells@, n.0 as int, read)))
}

/// Appends the value unless it is the last already.
fn append_once<T: OrderedKey>(list: &mut Vec<T>, value: T)
    requires
        increasing(old(list)@),
        forall|i: int|
            0 <= i < old(list)@.len() ==> (#[trigger] old(list)@[i]).rank() <= value.rank(),
    ensures
        increasing(final(list)@),
        forall|v: T| #[trigger]
            final(list)@.contains(v) <==> old(list)@.contains(v) || v == value,
{
    let ghost before = list@;
    let count: usize = list.len();
    if count > 0 && !list[count - 1].precedes(value) {
        proof {
            T::rank_is_injective(before[count - 1], value);
            assert(before[count - 1] == value);
            assert(before.contains(value));
        }
        return;
    }
    list.push(value);
    proof {
        assert forall|i: int, j: int| 0 <= i < j < list@.len() implies (#[trigger] list@[i]).rank()
            < (#[trigger] list@[j]).rank() by {
            if j == before.len() {
                if i < count - 1 {
                    assert(before[i].rank() < before[count - 1].rank());
                }
            } else {
                assert(before[i].rank() < before[j].rank());
            }
        }
        assert forall|v: T| #[trigger]
            list@.contains(v) <==> before.contains(v) || v == value by {
            if before.contains(v) {
                let k = before.index_of(v);
                assert(list@[k] == v);
            }
            if v == value {
                assert(list@[before.len() as int] == v);
            }
            if list@.contains(v) && v != value {
                let k = list@.index_of(v);
                assert(before[k] == v);
            }
        }
    }
}

/// A cell is in its unit and in no other.
proof fn lemma_sole_unit(
    units: Seq<PlacementUnit>,
    owners: Seq<Option<usize>>,
    cell: CellId,
    other: int,
)
    requires
        units_disjoint(units),
        names_unit(units, owners),
        cell.0 < owners.len(),
        0 <= other < units.len(),
    ensures
        owners[cell.0 as int] is Some,
        owners[cell.0 as int]->0 < units.len(),
        units[other].cells@.contains(cell) <==> other == owners[cell.0 as int]->0,
{
    assert(CellId((cell.0 as int) as usize) == cell);
    let u = owners[cell.0 as int]->0 as int;
    assert(units[u].cells@.contains(cell));
    if units[other].cells@.contains(cell) {
        let k = units[u].cells@.index_of(cell);
        let l = units[other].cells@.index_of(cell);
        assert(units[u].cells@[k] == units[other].cells@[l]);
    }
}

/// Lists, for each unit, the nets that it touches.
fn net_incidents(
    graph: &UnifiedGraph<'_>,
    units: &Vec<PlacementUnit>,
    owners: &Vec<Option<usize>>,
) -> (result: Vec<Vec<NetId>>)
    requires
        graph.wf(),
        units_disjoint(units@),
        owners@.len() == graph.design.cells@.len(),
        names_unit(units@, owners@),
    ensures
        lists_first(graph.design, units@, result@, graph.design.nets@.len() as int, 0),
{
    let design = graph.design();
    let mut lists: Vec<Vec<NetId>> = Vec::new();
    let mut unit: usize = 0;
    while unit < units.len()
        invariant
            unit <= units@.len(),
            lists@.len() == unit,
            forall|u: int| 0 <= u < unit ==> (#[trigger] lists@[u])@ == Seq::<NetId>::empty(),
        decreases units@.len() - unit,
    {
        lists.push(Vec::new());
        assert(lists@[unit as int]@ =~= Seq::<NetId>::empty());
        unit = unit + 1;
    }
    let mut index: usize = 0;
    while index < design.nets.len()
        invariant
            index <= design.nets@.len(),
            graph.wf(),
            design == graph.design,
            units_disjoint(units@),
            owners@.len() == design.cells@.len(),
            names_unit(units@, owners@),
            lists_first(design, units@, lists@, index as int, 0),
        decreases design.nets@.len() - index,
    {
        let net = &design.nets[index];
        let ghost cells = net_cells(design, index as int);
        proof {
            lemma_endpoints(design, index as int);
            assert(design.pins.len() == design.pins@.len());
            assert(design.nets@[index as int].driver.0 < design.pins@.len());
        }
        let mut read: usize = 0;
        while read <= net.sinks.len()
            invariant
                read <= 1 + net.sinks@.len(),
                1 + net.sinks@.len() <= usize::MAX,
                index < design.nets@.len(),
                *net == design.nets@[index as int],
                net.driver.0 < design.pins@.len(),
                graph.wf(),
                design == graph.design,
                units_disjoint(units@),
                owners@.len() == design.cells@.len(),
                names_unit(units@, owners@),
                cells == net_cells(design, index as int),
                forall|k: int|
                    0 <= k < cells.len() ==> (#[trigger] cells[k]).0 < design.cells@.len(),
                lists_first(design, units@, lists@, index as int, read as int),
            decreases 1 + net.sinks@.len() - read,
        {
            let cell: CellId = if read == 0 {
                design.pins[net.driver.0].cell
            } else {
                assert(design.nets@[index as int].sinks@[read - 1].0 < design.pins@.len());
                design.pins[net.sinks[read - 1].0].cell
            };
            assert(cells[read as int] == cell);
            let ghost before = lists@;
            match owners[cell.0] {
                Some(owner) => {
                    proof {
                        lemma_sole_unit(units@, owners@, cell, owner as int);
                        assert forall|i: int| 0 <= i < lists@[owner as int]@.len() implies (
                        #[trigger] lists@[owner as int]@[i]).rank() <= NetId(index).rank() by {
                            assert(lists@[owner as int]@.contains(lists@[owner as int]@[i]));
                        }
                        assert(increasing(lists@[owner as int]@));
                    }
                    append_once(&mut lists[owner], NetId(index));
                },
                None => {
                    assert(owners@[cell.0 as int] is Some);
                },
            }
            proof {
                assert forall|u: int| 0 <= u < lists@.len() implies increasing(
                    (#[trigger] lists@[u])@,
                ) by {
                    assert(increasing(before[u]@));
                }
                assert forall|u: int, n: NetId| 0 <= u < lists@.len() implies (
                #[trigger] lists@[u]@.contains(n) <==> (n.0 < index && touches_net(
                    design,
                    units@[u].cells@,
                    n.0 as int,
                )) || (n.0 == index && touches_first(
                    design,
                    units@[u].cells@,
                    n.0 as int,
                    read + 1,
                ))) by {
                    lemma_sole_unit(units@, owners@, cell, u);
                    assert(before[u]@.contains(n) <==> (n.0 < index && touches_net(
                        design,
                        units@[u].cells@,
                        n.0 as int,
                    )) || (n.0 == index && touches_first(
                        design,
                        units@[u].cells@,
                        n.0 as int,
                        read as int,
                    )));
                    if n.0 == index {
                        assert(n == NetId(index));
                        if touches_first(design, units@[u].cells@, n.0 as int, read as int) {
                            let k = choose|k: int|
                                0 <= k < read && k < cells.len() && units@[u].cells@.contains(
                                    #[trigger] net_cells(design, n.0 as int)[k],
                                );
                            assert(touches_first(design, units@[u].cells@, n.0 as int, read + 1));
                        }
                        if touches_first(design, units@[u].cells@, n.0 as int, read + 1)
                            && !touches_first(design, units@[u].cells@, n.0 as int, read as int) {
                            let k = choose|k: int|
                                0 <= k < read + 1 && k < cells.len() && units@[u].cells@.contains(
                                    #[trigger] net_cells(design, n.0 as int)[k],
                                );
                            assert(k == read);
                        }
                        if units@[u].cells@.contains(cell) {
                            assert(units@[u].cells@.contains(
                                net_cells(design, n.0 as int)[read as int],
                            ));
                            assert(touches_first(design, units@[u].cells@, n.0 as int, read + 1));
                        }
                    }
                }
            }
            read = read + 1;
        }
        proof {
            assert forall|u: int, n: NetId| 0 <= u < lists@.len() implies (
            #[trigger] lists@[u]@.contains(n) <==> (n.0 < index + 1 && touches_net(
                design,
                units@[u].cells@,
                n.0 as int,
            )) || (n.0 == index + 1 && touches_first(
                design,
                units@[u].cells@,
                n.0 as int,
                0,
            ))) by {
                if n.0 == index {
                    if touches_net(design, units@[u].cells@, n.0 as int) {
                        let k = choose|k: int|
                            0 <= k < cells.len() && units@[u].cells@.contains(
                                #[trigger] net_cells(design, n.0 as int)[k],
                            );
                        assert(touches_first(design, units@[u].cells@, n.0 as int, read as int));
                    }
                    if touches_first(design, units@[u].cells@, n.0 as int, read as int) {
                        let k = choose|k: int|
                            0 <= k < read && k < cells.len() && units@[u].cells@.contains(
                                #[trigger] net_cells(design, n.0 as int)[k],
                            );
                        assert(touches_net(design, units@[u].cells@, n.0 as int));
                    }
                }
            }
        }
        index = index + 1;
    }
    lists
}

/// The lists hold the arcs read so far.
spec fn arcs_first(
    graph: UnifiedGraph<'_>,
    units: Seq<PlacementUnit>,
    arcs: Seq<TimingArc>,
    lists: Seq<Vec<usize>>,
    done: int,
) -> bool {
    &&& lists.len() == units.len()
    &&& forall|u: int| 0 <= u < lists.len() ==> increasing((#[trigger] lists[u])@)
    &&& forall|u: int, i: usize|
        0 <= u < lists.len() ==> (#[trigger] lists[u]@.contains(i) <==> i < done && touches_arc(
            graph,
            units[u].cells@,
            arcs[i as int],
        ))
}

/// Lists, for each unit, the critical arcs that it touches.
fn arc_incidents(
    graph: &UnifiedGraph<'_>,
    units: &Vec<PlacementUnit>,
    owners: &Vec<Option<usize>>,
    arcs: &Vec<TimingArc>,
) -> (result: Vec<Vec<usize>>)
    requires
        graph.wf(),
        units_disjoint(units@),
        owners@.len() == graph.design.cells@.len(),
        names_unit(units@, owners@),
        arcs_in_range(*graph, arcs@),
    ensures
        arcs_first(*graph, units@, arcs@, result@, arcs@.len() as int),
{
    let design = graph.design();
    let mut lists: Vec<Vec<usize>> = Vec::new();
    let mut unit: usize = 0;
    while unit < units.len()
        invariant
            unit <= units@.len(),
            lists@.len() == unit,
            forall|u: int| 0 <= u < unit ==> (#[trigger] lists@[u])@ == Seq::<usize>::empty(),
        decreases units@.len() - unit,
    {
        lists.push(Vec::new());
        assert(lists@[unit as int]@ =~= Seq::<usize>::empty());
        unit = unit + 1;
    }
    let mut index: usize = 0;
    while index < arcs.len()
        invariant
            index <= arcs@.len(),
            graph.wf(),
            design == graph.design,
            units_disjoint(units@),
            owners@.len() == design.cells@.len(),
            names_unit(units@, owners@),
            arcs_in_range(*graph, arcs@),
            arcs_first(*graph, units@, arcs@, lists@, index as int),
        decreases arcs@.len() - index,
    {
        let timing = arcs[index];
        proof {
            assert(arcs@[index as int].criticality > 1);
            lemma_endpoints(design, timing.arc.net.0 as int);
            assert(design.nets@[timing.arc.net.0 as int].driver.0 < design.pins@.len());
            assert(net_cells(design, timing.arc.net.0 as int)[0].0 < design.cells@.len());
            assert(design.pins@[timing.arc.sink.0 as int].cell.0 < design.cells@.len());
        }
        let driver = design.pins[design.nets[timing.arc.net.0].driver.0].cell;
        let sink = design.pins[timing.arc.sink.0].cell;
        let ghost before = lists@;
        if let Some(owner) = owners[driver.0] {
            proof {
                lemma_sole_unit(units@, owners@, driver, owner as int);
                assert(increasing(lists@[owner as int]@));
                assert forall|i: int| 0 <= i < lists@[owner as int]@.len() implies (
                #[trigger] lists@[owner as int]@[i]).rank() <= index.rank() by {
                    assert(lists@[owner as int]@.contains(lists@[owner as int]@[i]));
                }
            }
            append_once(&mut lists[owner], index);
        }
        let ghost middle = lists@;
        proof {
            assert(owners@[driver.0 as int] is Some);
            assert forall|u: int, i: usize| 0 <= u < middle.len() implies (
            #[trigger] middle[u]@.contains(i) <==> before[u]@.contains(i) || (i == index
                && units@[u].cells@.contains(driver))) by {
                lemma_sole_unit(units@, owners@, driver, u);
            }
            assert forall|u: int| 0 <= u < middle.len() implies increasing(
                (#[trigger] middle[u])@,
            ) by {
                assert(increasing(before[u]@));
            }
        }
        if let Some(owner) = owners[sink.0] {
            proof {
                lemma_sole_unit(units@, owners@, sink, owner as int);
                assert(increasing(lists@[owner as int]@));
                assert forall|i: int| 0 <= i < lists@[owner as int]@.len() implies (
                #[trigger] lists@[owner as int]@[i]).rank() <= index.rank() by {
                    assert(middle[owner as int]@.contains(lists@[owner as int]@[i]));
                    assert(before[owner as int]@.contains(lists@[owner as int]@[i])
                        || lists@[owner as int]@[i] == index);
                }
            }
            append_once(&mut lists[owner], index);
        }
        proof {
            assert(owners@[sink.0 as int] is Some);
            assert forall|u: int| 0 <= u < lists@.len() implies increasing(
                (#[trigger] lists@[u])@,
            ) by {
                assert(increasing(middle[u]@));
            }
            assert forall|u: int, i: usize| 0 <= u < lists@.len() implies (
            #[trigger] lists@[u]@.contains(i) <==> i < index + 1 && touches_arc(
                *graph,
                units@[u].cells@,
                arcs@[i as int],
            )) by {
                lemma_sole_unit(units@, owners@, sink, u);
                assert(middle[u]@.contains(i) <==> before[u]@.contains(i) || (i == index
                    && units@[u].cells@.contains(driver)));
                assert(before[u]@.contains(i) <==> i < index && touches_arc(
                    *graph,
                    units@[u].cells@,
                    arcs@[i as int],
                ));
            }
        }
        index = index + 1;
    }
    lists
}

/// Lists what each unit touches.
pub fn detailed_placement_incidents(
    graph: &UnifiedGraph<'_>,
    units: &Vec<PlacementUnit>,
    arcs: &Vec<TimingArc>,
    Ghost(constraints): Ghost<&PlacementConstraints>,
) -> (result: Vec<DetailedPlacementIncident>)
    requires
        graph.wf(),
        forall|u: int| 0 <= u < units@.len() ==> (#[trigger] units@[u]).wf(*graph, constraints),
        units_disjoint(units@),
        forall|c: CellId| c.0 < graph.design.cells@.len() ==> #[trigger] is_covered(units@, c),
        arcs_in_range(*graph, arcs@),
    ensures
        result@.len() == units@.len(),
        forall|u: int|
            0 <= u < result@.len() ==> is_incident(
                *graph,
                units@[u].cells@,
                arcs@,
                #[trigger] result@[u],
            ),
{
    let owners = cell_units(
        units,
        graph.design().cells.len(),
        Ghost(*graph),
        Ghost(constraints),
    );
    let mut nets = net_incidents(graph, units, &owners);
    let mut timing = arc_incidents(graph, units, &owners, arcs);
    let ghost all_nets = nets@;
    let ghost all_arcs = timing@;
    let mut reversed: Vec<DetailedPlacementIncident> = Vec::new();
    let mut left: usize = units.len();
    while left > 0
        invariant
            left <= units@.len(),
            nets@ == all_nets.take(left as int),
            timing@ == all_arcs.take(left as int),
            all_nets.len() == units@.len(),
            all_arcs.len() == units@.len(),
            reversed@.len() == units@.len() - left,
            forall|i: int|
                0 <= i < reversed@.len() ==> (#[trigger] reversed@[i]).nets
                    == all_nets[units@.len() - 1 - i] && reversed@[i].timing_arcs
                    == all_arcs[units@.len() - 1 - i],
        decreases left,
    {
        let last_nets = nets.pop();
        let last_arcs = timing.pop();
        match (last_nets, last_arcs) {
            (Some(unit_nets), Some(unit_arcs)) => {
                reversed.push(
                    DetailedPlacementIncident { nets: unit_nets, timing_arcs: unit_arcs },
                );
            },
            _ => {},
        }
        left = left - 1;
        proof {
            assert(all_nets.take(left + 1).drop_last() =~= all_nets.take(left as int));
            assert(all_arcs.take(left + 1).drop_last() =~= all_arcs.take(left as int));
        }
    }
    let mut incidents: Vec<DetailedPlacementIncident> = Vec::new();
    let ghost all = reversed@;
    assert(all.take(all.len() as int) =~= all);
    while incidents.len() < units.len()
        invariant
            incidents@.len() <= units@.len(),
            all.len() == units@.len(),
            reversed@ == all.take(units@.len() - incidents@.len()),
            forall|i: int|
                0 <= i < incidents@.len() ==> #[trigger] incidents@[i] == all[units@.len() - 1 - i],
        decreases units@.len() - incidents@.len(),
    {
        let ghost rest = reversed@.len();
        match reversed.pop() {
            Some(incident) => {
                incidents.push(incident);
            },
            None => {
                return incidents;
            },
        }
        proof {
            assert(all.take(rest as int).drop_last() =~= all.take(rest - 1));
        }
    }
    proof {
        assert forall|u: int| 0 <= u < incidents@.len() implies is_incident(
            *graph,
            units@[u].cells@,
            arcs@,
            #[trigger] incidents@[u],
        ) by {
            let incident = incidents@[u];
            assert(incident == all[units@.len() - 1 - u]);
            assert(incident.nets == all_nets[u]);
            assert(incident.timing_arcs == all_arcs[u]);
            assert(increasing(all_nets[u]@));
            assert(increasing(all_arcs[u]@));
            assert forall|n: NetId| #[trigger]
                incident.nets@.contains(n) <==> n.0 < graph.design.nets@.len() && touches_net(
                    graph.design,
                    units@[u].cells@,
                    n.0 as int,
                ) by {
                assert(all_nets[u]@.contains(n) == incident.nets@.contains(n));
            }
            assert forall|i: usize| #[trigger]
                incident.timing_arcs@.contains(i) <==> i < arcs@.len() && touches_arc(
                    *graph,
                    units@[u].cells@,
                    arcs@[i as int],
                ) by {
                assert(all_arcs[u]@.contains(i) == incident.timing_arcs@.contains(i));
            }
        }
    }
    incidents
}

/// The union of two increasing lists, in increasing order.
pub fn merge_sorted_unique<T: OrderedKey>(left: &Vec<T>, right: &Vec<T>, merged: &mut Vec<T>)
    requires
        increasing(left@),
        increasing(right@),
    ensures
        increasing(final(merged)@),
        forall|v: T| #[trigger]
            final(merged)@.contains(v) <==> left@.contains(v) || right@.contains(v),
{
    merged.clear();
    let mut a: usize = 0;
    let mut b: usize = 0;
    while a < left.len() || b < right.len()
        invariant
            a <= left@.len(),
            b <= right@.len(),
            increasing(left@),
            increasing(right@),
            increasing(merged@),
            forall|i: int|
                0 <= i < merged@.len() ==> (a < left@.len() ==> (#[trigger] merged@[i]).rank()
                    < left@[a as int].rank()) && (b < right@.len() ==> merged@[i].rank()
                    < right@[b as int].rank()),
            forall|v: T| #[trigger]
                merged@.contains(v) <==> left@.take(a as int).contains(v) || right@.take(
                    b as int,
                ).contains(v),
        decreases left@.len() - a + right@.len() - b,
    {
        let ghost before = merged@;
        let ghost a0 = a as int;
        let ghost b0 = b as int;
        let next: T;
        if a < left.len() && (b >= right.len() || left[a].precedes(right[b])) {
            next = left[a];
            a = a + 1;
        } else if b < right.len() && (a >= left.len() || right[b].precedes(left[a])) {
            next = right[b];
            b = b + 1;
        } else {
            proof {
                T::rank_is_injective(left@[a0], right@[b0]);
            }
            next = left[a];
            a = a + 1;
            b = b + 1;
        }
        merged.push(next);
        proof {
            if a < left@.len() && a0 < a {
                assert(left@[a0].rank() < left@[a as int].rank());
            }
            if b < right@.len() && b0 < b {
                assert(right@[b0].rank() < right@[b as int].rank());
            }
            assert forall|i: int, j: int| 0 <= i < j < merged@.len() implies (
            #[trigger] merged@[i]).rank() < (#[trigger] merged@[j]).rank() by {
                if j < before.len() {
                    assert(before[i].rank() < before[j].rank());
                } else {
                    assert(merged@[i] == before[i]);
                }
            }
            assert forall|i: int| 0 <= i < merged@.len() implies (a < left@.len() ==> (
            #[trigger] merged@[i]).rank() < left@[a as int].rank()) && (b < right@.len()
                ==> merged@[i].rank() < right@[b as int].rank()) by {
                if i < before.len() {
                    assert(merged@[i] == before[i]);
                }
            }
            assert forall|v: T| #[trigger]
                merged@.contains(v) <==> left@.take(a as int).contains(v) || right@.take(
                    b as int,
                ).contains(v) by {
                if a0 < a {
                    lemma_prefix(left@, a0, v);
                }
                if b0 < b {
                    lemma_prefix(right@, b0, v);
                }
                assert(before.contains(v) <==> left@.take(a0).contains(v) || right@.take(
                    b0,
                ).contains(v));
                if before.contains(v) {
                    let k = before.index_of(v);
                    assert(merged@[k] == v);
                }
                if v == next {
                    assert(merged@[before.len() as int] == v);
                }
                if merged@.contains(v) && v != next {
                    let k = merged@.index_of(v);
                    assert(before[k] == v);
                }
            }
        }
    }
    proof {
        assert(left@.take(a as int) =~= left@);
        assert(right@.take(b as int) =~= right@);
    }
}

/// One more element of a prefix.
proof fn lemma_prefix<T>(keys: Seq<T>, index: int, key: T)
    requires
        0 <= index < keys.len(),
    ensures
        keys.take(index + 1).contains(key) <==> keys.take(index).contains(key) || key
            == keys[index],
{
    assert(keys.take(index + 1) =~= keys.take(index).push(keys[index]));
    if keys.take(index).contains(key) {
        let i = keys.take(index).index_of(key);
        assert(keys.take(index + 1)[i] == key);
    }
    if key == keys[index] {
        assert(keys.take(index + 1)[index] == key);
    }
}

} // verus!
