//! What the tables of weights and free distances do to placement.

use vstd::prelude::*;

use crate::model::{CellId, CellPinId, Connection, Design, NetId, ResourceKind};
use crate::neighbors::{
    are_neighbors, edge_cost, is_ceil_root, neighbors_of, neighbors_upto, PlacementNeighbor,
    PlacementWeights,
};

verus! {

/// The number is the 64-point share of one sink among so many: 64 divided by the
/// least root whose square reaches the fanout, and at least one.
pub open spec fn is_share(share: int, fanout: nat) -> bool {
    let sinks = if fanout == 0 {
        1
    } else {
        fanout
    };
    exists|root: int|
        {
            &&& root > 0
            &&& #[trigger] (root * root) >= sinks
            &&& (root - 1) * (root - 1) < sinks
            &&& share == if root > 64 {
                1
            } else {
                64int / root
            }
        }
}

/// The number is the product, or the largest number where the product is out of range.
pub open spec fn is_capped_product(result: u64, a: int, b: int) -> bool {
    result == if a * b <= u64::MAX {
        a * b
    } else {
        u64::MAX as int
    }
}

/// The free distance is the entry of the caller's table, and nothing without one.
pub open spec fn obeys_budgets(
    weights: PlacementWeights<'_>,
    connection: Connection,
    budget: u32,
) -> bool {
    &&& weights.sink_budgets matches Some(table) ==> budget == if table@.contains_key(connection) {
        table@[connection]
    } else {
        0
    }
    &&& weights.sink_budgets is None ==> budget == 0
}

/// The pull is the share of the fanout times the entry of the sink in the caller's
/// table, or without one times that of the net, or without either the share itself.
/// It is timed exactly where that entry is above one.
pub open spec fn obeys_weights(
    weights: PlacementWeights<'_>,
    connection: Connection,
    share: int,
    weight: u64,
    timing_driven: bool,
) -> bool {
    let of_sink = weights.sink_weights matches Some(table) && table@.contains_key(connection);
    let of_net = weights.net_weights matches Some(table) && table@.contains_key(connection.net);
    &&& of_sink ==> {
        let entry = weights.sink_weights->0@[connection];
        is_capped_product(weight, share, entry as int) && timing_driven == (entry > 1)
    }
    &&& !of_sink && of_net ==> {
        let entry = weights.net_weights->0@[connection.net];
        is_capped_product(weight, share, entry as int) && timing_driven == (entry > 1)
    }
    &&& !of_sink && !of_net ==> weight == share && !timing_driven
}

/// The sink of a net with more sinks than a star has pulls only where its own entry
/// is above one and no sink of the net has a greater one.
pub open spec fn stands_out(
    weights: PlacementWeights<'_>,
    sinks: Seq<CellPinId>,
    connection: Connection,
) -> bool {
    &&& weights.sink_weights matches Some(table) && table@.contains_key(connection)
    &&& weights.sink_weights->0@[connection] > 1
    &&& forall|k: int|
        0 <= k < sinks.len() && weights.sink_weights->0@.contains_key(
            Connection { net: connection.net, sink: #[trigger] sinks[k] },
        ) ==> weights.sink_weights->0@[Connection { net: connection.net, sink: sinks[k] }]
            <= weights.sink_weights->0@[connection]
}

/// Number of sinks up to which every sink of a net pulls.
pub open spec fn star_limit() -> int {
    256
}

/// The connection pulls at all: no clock drives it, and its net is narrow or it stands out.
pub open spec fn may_pull(
    design: &Design,
    weights: PlacementWeights<'_>,
    net: int,
    sink: int,
) -> bool {
    let record = design.nets@[net];
    let connection = Connection { net: NetId(net as usize), sink: record.sinks@[sink] };
    &&& design.cells@[design.pins@[record.driver.0 as int].cell.0 as int].kind
        != ResourceKind::Clock
    &&& record.sinks@.len() <= star_limit() || stands_out(weights, record.sinks@, connection)
}

/// The neighbor of the cell is the other end of this connection.
pub open spec fn comes_by(
    design: &Design,
    weights: PlacementWeights<'_>,
    cell: CellId,
    entry: PlacementNeighbor,
    net: int,
    sink: int,
) -> bool {
    let record = design.nets@[net];
    let pin = record.sinks@[sink];
    let connection = Connection { net: NetId(net as usize), sink: pin };
    let driver = design.pins@[record.driver.0 as int].cell;
    let driven = design.pins@[pin.0 as int].cell;
    &&& 0 <= net < design.nets@.len()
    &&& 0 <= sink < record.sinks@.len()
    &&& driver != driven
    &&& (cell == driver && entry.cell == driven) || (cell == driven && entry.cell == driver)
    &&& may_pull(design, weights, net, sink)
    &&& obeys_budgets(weights, connection, entry.budget)
    &&& exists|share: int| #[trigger]
        is_share(share, record.sinks@.len()) && obeys_weights(
            weights,
            connection,
            share,
            entry.weight,
            entry.timing_driven,
        )
}

/// The greatest weight above one is that of some sink, and none is greater.
proof fn lemma_strongest(weights: PlacementWeights<'_>, net: NetId, sinks: Seq<CellPinId>)
    ensures
        match weights.strongest(net, sinks) {
            None => forall|k: int|
                0 <= k < sinks.len() ==> (weights.sink_weight(
                    Connection { net, sink: #[trigger] sinks[k] },
                ) matches Some(weight) ==> weight <= 1),
            Some(best) => {
                &&& best > 1
                &&& forall|k: int|
                    0 <= k < sinks.len() ==> (weights.sink_weight(
                        Connection { net, sink: #[trigger] sinks[k] },
                    ) matches Some(weight) ==> weight <= best)
                &&& exists|k: int|
                    0 <= k < sinks.len() && weights.sink_weight(
                        Connection { net, sink: #[trigger] sinks[k] },
                    ) == Some(best)
            },
        },
    decreases sinks.len(),
{
    if sinks.len() > 0 {
        let rest = sinks.drop_last();
        lemma_strongest(weights, net, rest);
        let last = Connection { net, sink: sinks.last() };
        assert forall|k: int| 0 <= k < sinks.len() - 1 implies #[trigger] sinks[k] == rest[k] by {}
        match weights.strongest(net, sinks) {
            None => {
                assert forall|k: int| 0 <= k < sinks.len() implies (weights.sink_weight(
                    Connection { net, sink: #[trigger] sinks[k] },
                ) matches Some(weight) ==> weight <= 1) by {
                    if k < sinks.len() - 1 {
                        assert(rest[k] == sinks[k]);
                    }
                }
            },
            Some(best) => {
                assert forall|k: int| 0 <= k < sinks.len() implies (weights.sink_weight(
                    Connection { net, sink: #[trigger] sinks[k] },
                ) matches Some(weight) ==> weight <= best) by {
                    if k < sinks.len() - 1 {
                        assert(rest[k] == sinks[k]);
                    }
                }
                if weights.sink_weight(last) == Some(best) {
                    assert(sinks[sinks.len() - 1] == sinks.last());
                } else {
                    let k = choose|k: int|
                        0 <= k < rest.len() && weights.sink_weight(
                            Connection { net, sink: #[trigger] rest[k] },
                        ) == Some(best);
                    assert(sinks[k] == rest[k]);
                }
            },
        }
    }
}

/// The share of a fanout.
pub(crate) proof fn lemma_share(fanout: nat)
    ensures
        is_share(crate::neighbors::fanout_weight(fanout) as int, fanout),
        1 <= crate::neighbors::fanout_weight(fanout) <= 64,
{
    let least = crate::neighbors::counted_fanout(fanout);
    let known = crate::neighbors::lemma_ceil_root_exists(least);
    let root = choose|root: nat| is_ceil_root(root, least);
    assert(is_ceil_root(root, least));
    assert(root > 0) by {
        if root == 0 {
            assert(root * root == 0) by (nonlinear_arith)
                requires
                    root == 0,
            ;
        }
    }
    assert(1 <= root <= 64 ==> 1 <= 64int / root as int <= 64) by (nonlinear_arith)
        requires
            root > 0,
    ;
    assert(root > 64 ==> 64int / root as int == 0) by (nonlinear_arith)
        requires
            root > 0,
    ;
    let whole = root as int;
    assert(whole * whole >= least);
    assert((whole - 1) * (whole - 1) < least);
}

/// Which edges pull, and how.
pub(crate) proof fn lemma_edge(design: &Design, weights: PlacementWeights<'_>, net: int, sink: int)
    requires
        0 <= net < design.nets@.len(),
        design.nets@.len() <= usize::MAX,
        0 <= sink < design.nets@[net].sinks@.len(),
    ensures
        ({
            let record = design.nets@[net];
            let connection = Connection { net: NetId(net as usize), sink: record.sinks@[sink] };
            let share = crate::neighbors::fanout_weight(record.sinks@.len());
            let edge = weights.edge(design, share, net, sink);
            &&& obeys_budgets(weights, connection, edge.budget)
            &&& is_share(share as int, record.sinks@.len())
            &&& edge.weight != 0 ==> may_pull(design, weights, net, sink)
            &&& may_pull(design, weights, net, sink) ==> obeys_weights(
                weights,
                connection,
                share as int,
                edge.weight,
                edge.timing_driven,
            )
        }),
{
    let record = design.nets@[net];
    let id = NetId(net as usize);
    let pin = record.sinks@[sink];
    let connection = Connection { net: id, sink: pin };
    let share = crate::neighbors::fanout_weight(record.sinks@.len());
    let edge = weights.edge(design, share, net, sink);
    lemma_share(record.sinks@.len());
    lemma_strongest(weights, id, record.sinks@);
    let own = weights.sink_weight(connection);
    assert(record.sinks@[sink] == pin);
    assert forall|entry: int| 0 <= entry <= u64::MAX implies #[trigger] (share as int * entry)
        >= 0 by {
        assert(share as int * entry >= 0) by (nonlinear_arith)
            requires
                share as int >= 0,
                entry >= 0,
        ;
    }
    if record.sinks@.len() > star_limit() {
        let best = weights.strongest(id, record.sinks@);
        if own is Some && own == best {
            assert(stands_out(weights, record.sinks@, connection)) by {
                assert forall|k: int|
                    0 <= k < record.sinks@.len() && weights.sink_weights->0@.contains_key(
                        Connection { net: connection.net, sink: #[trigger] record.sinks@[k] },
                    ) implies weights.sink_weights->0@[Connection {
                    net: connection.net,
                    sink: record.sinks@[k],
                }] <= weights.sink_weights->0@[connection] by {
                    let other = Connection { net: id, sink: record.sinks@[k] };
                    assert(weights.sink_weight(other) == Some(weights.sink_weights->0@[other]));
                }
            }
        }
        if stands_out(weights, record.sinks@, connection) {
            assert(own == Some(weights.sink_weights->0@[connection]));
            if let Some(most) = best {
                let k = choose|k: int|
                    0 <= k < record.sinks@.len() && weights.sink_weight(
                        Connection { net: id, sink: #[trigger] record.sinks@[k] },
                    ) == Some(most);
                let other = Connection { net: id, sink: record.sinks@[k] };
                assert(weights.sink_weights->0@.contains_key(other));
                assert(weights.sink_weights->0@[other] == most);
            }
            assert(own == best);
        }
    }
    assert(share as int * 1 == share as int);
}

/// Every entry so far comes by a connection.
proof fn lemma_entries_come(
    design: &Design,
    weights: PlacementWeights<'_>,
    cell: CellId,
    net: int,
    sink: int,
    at: int,
) -> (found: (int, int))
    requires
        design.nets@.len() <= usize::MAX,
        0 <= net <= design.nets@.len(),
        sink == 0 || (net < design.nets@.len() && 0 <= sink <= design.nets@[net].sinks@.len()),
        0 <= at < neighbors_upto(design, weights, cell, net, sink).len(),
    ensures
        comes_by(
            design,
            weights,
            cell,
            neighbors_upto(design, weights, cell, net, sink)[at],
            found.0,
            found.1,
        ),
    decreases net, sink,
{
    if sink > 0 {
        let before = neighbors_upto(design, weights, cell, net, sink - 1);
        if at < before.len() {
            lemma_entries_come(design, weights, cell, net, sink - 1, at)
        } else {
            lemma_edge(design, weights, net, sink - 1);
            (net, sink - 1)
        }
    } else {
        lemma_entries_come(
            design,
            weights,
            cell,
            net - 1,
            design.nets@[net - 1].sinks@.len() as int,
            at,
        )
    }
}

/// Every entry of the lists comes by a connection of the design: it names the other
/// end, carries the free distance that the caller's table gives the connection, and
/// pulls by the entry that the caller's tables give the sink or else the net.
pub proof fn every_neighbor_obeys_the_tables(
    design: &Design,
    weights: PlacementWeights<'_>,
    lists: Seq<Vec<PlacementNeighbor>>,
    cell: usize,
    at: int,
) -> (found: (int, int))
    requires
        design.nets@.len() <= usize::MAX,
        are_neighbors(design, weights, lists),
        cell < lists.len(),
        0 <= at < lists[cell as int]@.len(),
    ensures
        comes_by(design, weights, CellId(cell), lists[cell as int]@[at], found.0, found.1),
{
    assert(lists[cell as int]@ == neighbors_of(design, weights, CellId(cell)));
    lemma_entries_come(design, weights, CellId(cell), design.nets@.len() as int, 0, at)
}

/// Entries stay in the list.
proof fn lemma_entries_stay(
    design: &Design,
    weights: PlacementWeights<'_>,
    cell: CellId,
    net: int,
    sink: int,
    later: int,
    entry: PlacementNeighbor,
)
    requires
        0 <= net < later <= design.nets@.len(),
        0 <= sink <= design.nets@[net].sinks@.len(),
        neighbors_upto(design, weights, cell, net, sink).contains(entry),
    ensures
        neighbors_upto(design, weights, cell, later, 0).contains(entry),
    decreases later - net, design.nets@[net].sinks@.len() - sink,
{
    if sink < design.nets@[net].sinks@.len() {
        let before = neighbors_upto(design, weights, cell, net, sink);
        let after = neighbors_upto(design, weights, cell, net, sink + 1);
        let k = before.index_of(entry);
        assert(after[k] == entry);
        lemma_entries_stay(design, weights, cell, net, sink + 1, later, entry);
    } else {
        assert(neighbors_upto(design, weights, cell, net + 1, 0) == neighbors_upto(
            design,
            weights,
            cell,
            net,
            sink,
        ));
        if net + 1 < later {
            lemma_entries_stay(design, weights, cell, net + 1, 0, later, entry);
        }
    }
}

/// Every connection between different cells that pulls, and whose weight in the
/// caller's tables is not zero, is listed at both of its ends.
pub proof fn every_connection_is_listed_at_both_ends(
    design: &Design,
    weights: PlacementWeights<'_>,
    lists: Seq<Vec<PlacementNeighbor>>,
    net: int,
    sink: int,
) -> (entries: (PlacementNeighbor, PlacementNeighbor))
    requires
        design.wf(),
        design.nets@.len() <= usize::MAX,
        are_neighbors(design, weights, lists),
        0 <= net < design.nets@.len(),
        0 <= sink < design.nets@[net].sinks@.len(),
        may_pull(design, weights, net, sink),
        design.pins@[design.nets@[net].driver.0 as int].cell
            != design.pins@[design.nets@[net].sinks@[sink].0 as int].cell,
        weights.sink_weights matches Some(table) ==> (table@.contains_key(
            Connection { net: NetId(net as usize), sink: design.nets@[net].sinks@[sink] },
        ) ==> table@[Connection {
            net: NetId(net as usize),
            sink: design.nets@[net].sinks@[sink],
        }] > 0),
        weights.net_weights matches Some(table) ==> (table@.contains_key(NetId(net as usize))
            ==> table@[NetId(net as usize)] > 0),
    ensures
        ({
            let driver = design.pins@[design.nets@[net].driver.0 as int].cell;
            let driven = design.pins@[design.nets@[net].sinks@[sink].0 as int].cell;
            &&& lists[driver.0 as int]@.contains(entries.0)
            &&& lists[driven.0 as int]@.contains(entries.1)
            &&& comes_by(design, weights, driver, entries.0, net, sink)
            &&& comes_by(design, weights, driven, entries.1, net, sink)
        }),
{
    let record = design.nets@[net];
    let driver = design.pins@[record.driver.0 as int].cell;
    let driven = design.pins@[record.sinks@[sink].0 as int].cell;
    let share = crate::neighbors::fanout_weight(record.sinks@.len());
    let edge = weights.edge(design, share, net, sink);
    lemma_edge(design, weights, net, sink);
    lemma_share(record.sinks@.len());
    assert forall|entry: int| entry > 0 implies #[trigger] (share as int * entry) > 0 by {
        assert(share as int * entry > 0) by (nonlinear_arith)
            requires
                share as int > 0,
                entry > 0,
        ;
    }
    assert(edge.weight != 0);
    let first = PlacementNeighbor {
        cell: driven,
        weight: edge.weight,
        timing_driven: edge.timing_driven,
        budget: edge.budget,
    };
    let second = PlacementNeighbor {
        cell: driver,
        weight: edge.weight,
        timing_driven: edge.timing_driven,
        budget: edge.budget,
    };
    let a = neighbors_upto(design, weights, driver, net, sink + 1);
    assert(a.last() == first);
    assert(a.contains(first));
    let b = neighbors_upto(design, weights, driven, net, sink + 1);
    assert(b.last() == second);
    assert(b.contains(second));
    let count = design.nets@.len() as int;
    lemma_entries_stay(design, weights, driver, net, sink + 1, count, first);
    lemma_entries_stay(design, weights, driven, net, sink + 1, count, second);
    assert(driver.0 < design.cells@.len());
    assert(driven.0 < design.cells@.len());
    assert(lists[driver.0 as int]@ == neighbors_of(design, weights, driver));
    assert(lists[driven.0 as int]@ == neighbors_of(design, weights, driven));
    (first, second)
}

/// Within its free distance an edge costs nothing; past it every further tile costs
/// its weight, or on a timed edge the weight times the square of what is in excess.
pub proof fn only_the_excess_costs(edge: PlacementNeighbor, distance: int)
    requires
        0 <= distance <= u32::MAX,
        edge.weight * (distance * distance) <= u64::MAX,
        edge.weight * distance <= u64::MAX,
    ensures
        distance <= edge.budget ==> edge_cost(edge, distance) == 0,
        distance > edge.budget && !edge.timing_driven ==> edge_cost(edge, distance)
            == edge.weight * distance - edge.weight * edge.budget,
        distance > edge.budget && edge.timing_driven ==> edge_cost(edge, distance)
            == edge.weight * ((distance - edge.budget) * (distance - edge.budget)),
        distance > edge.budget && edge.weight > 0 ==> edge_cost(edge, distance) > 0,
{
    let excess = if distance > edge.budget {
        distance - edge.budget
    } else {
        0
    };
    assert(0 <= excess * excess <= distance * distance <= u32::MAX * u32::MAX) by (nonlinear_arith)
        requires
            0 <= excess <= distance <= u32::MAX,
    ;
    assert(edge.weight * (excess * excess) <= edge.weight * (distance * distance))
        by (nonlinear_arith)
        requires
            0 <= excess * excess <= distance * distance,
            edge.weight >= 0,
    ;
    assert(edge.weight * excess <= edge.weight * distance) by (nonlinear_arith)
        requires
            0 <= excess <= distance,
            edge.weight >= 0,
    ;
    assert(edge.weight * 0 == 0);
    assert(0int * 0 == 0);
    assert(edge.weight * (distance - edge.budget) == edge.weight * distance - edge.weight
        * edge.budget) by (nonlinear_arith);
    if excess > 0 && edge.weight > 0 {
        assert(excess * excess > 0) by (nonlinear_arith)
            requires
                excess > 0,
        ;
        assert(edge.weight * (excess * excess) > 0) by (nonlinear_arith)
            requires
                excess * excess > 0,
                edge.weight > 0,
        ;
        assert(edge.weight * excess > 0) by (nonlinear_arith)
            requires
                excess > 0,
                edge.weight > 0,
        ;
    }
}

} // verus!
