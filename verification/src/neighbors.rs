//! Weighted connectivity that placement pulls by.

use vstd::prelude::*;

use crate::cost::clip_u64;
use crate::model::{CellId, CellPinId, Connection, Design, NetId, ResourceKind};
use crate::ordered::OrderedMap;

verus! {

/// Fanout above which only the most critical sinks of a net pull.
pub const MAX_LOCAL_STAR_FANOUT: usize = 256;

/// One end of a weighted connection, seen from the other.
#[derive(Clone, Copy, Debug, PartialEq, Eq, Structural)]
pub struct PlacementNeighbor {
    /// Cell at the other end.
    pub cell: CellId,
    /// Pull of the connection.
    pub weight: u64,
    /// Whether the connection is timed.
    pub timing_driven: bool,
    /// Free Manhattan distance before this edge accrues placement cost.
    ///
    /// Derived from routed-delay budgets: a connection inside its delay budget
    /// behaves like slack rubber, and only the excess over the allowance is
    /// pulled like a spring. Zero means unconstrained.
    pub budget: u32,
}

/// Timing weights of nets and sinks, and free distances of sinks.
#[derive(Clone, Copy)]
pub struct PlacementWeights<'a> {
    /// Weight of each net; a missing net has weight one.
    pub net_weights: Option<&'a OrderedMap<NetId, u64>>,
    /// Weight of each sink; a missing sink has the weight of its net.
    pub sink_weights: Option<&'a OrderedMap<Connection, u64>>,
    /// Free distance of each sink; a missing sink has none.
    pub sink_budgets: Option<&'a OrderedMap<Connection, u32>>,
}

/// Smallest number whose square is not below the fanout.
pub open spec fn is_ceil_root(root: nat, fanout: nat) -> bool {
    root * root >= fanout && (root == 0 || (root - 1) * (root - 1) < fanout)
}

/// A fanout, counted as at least one.
pub open spec fn counted_fanout(fanout: nat) -> nat {
    if fanout < 1 {
        1
    } else {
        fanout
    }
}

/// The 64-point scale divided by a root, and at least one.
pub open spec fn root_share(root: nat) -> nat {
    if 64nat / root < 1 {
        1
    } else {
        64nat / root
    }
}

/// Per-sink star-model weight with square-root fanout normalization.
///
/// Dividing by the full fanout made a wide net's *total* placement influence
/// constant: one outlying sink on a 64-way decode net cost no more than 1/64
/// of an ordinary edge, and sink-local timing feedback was diluted by the same
/// factor. No normalization makes wide control nets dominate the solve. The
/// square-root model keeps their aggregate influence proportional to
/// `sqrt(fanout)` on a 64-point scale.
pub fn fanout_placement_weight(fanout: usize) -> (result: u64)
    ensures
        1 <= result <= 64,
        forall|root: nat| #[trigger]
            is_ceil_root(root, counted_fanout(fanout as nat)) ==> result == root_share(root),
{
    let fanout: u64 = if fanout < 1 {
        1
    } else {
        fanout as u64
    };
    let mut root: u64 = 1;
    let mut found = fanout <= 1;
    while root < 64 && !found
        invariant
            1 <= root <= 64,
            fanout >= 1,
            root == 1 || (root - 1) * (root - 1) < fanout,
            found ==> root * root >= fanout,
            !found ==> root * root < fanout,
        decreases 64 - root,
    {
        root = root + 1;
        assert(root * root <= 64 * 64) by (nonlinear_arith)
            requires
                root <= 64,
        ;
        found = root * root >= fanout;
    }
    proof {
        assert forall|other: nat| #[trigger] is_ceil_root(other, fanout as nat) implies 64nat
            / (root as nat) == root_share(other) by {
            lemma_ceil_root(root as nat, other, fanout as nat);
        }
        assert(1 <= 64int / (root as int) <= 64) by (nonlinear_arith)
            requires
                1 <= root <= 64,
        ;
    }
    64 / root
}

/// The searched root gives the weight of the true root.
proof fn lemma_ceil_root(root: nat, other: nat, fanout: nat)
    requires
        1 <= root <= 64,
        fanout >= 1,
        root == 1 || (root - 1) * (root - 1) < fanout,
        root == 64 || root * root >= fanout,
        is_ceil_root(other, fanout),
    ensures
        other >= 1,
        64nat / root == root_share(other),
{
    assert(64nat / root >= 1) by (nonlinear_arith)
        requires
            1 <= root <= 64,
    ;
    assert(other >= 1) by {
        if other == 0 {
            assert(other * other == 0);
        }
    }
    if root * root >= fanout {
        if other < root {
            assert(other * other <= (root - 1) * (root - 1)) by (nonlinear_arith)
                requires
                    0 <= other <= root - 1,
            ;
        } else if other > root {
            assert((other - 1) * (other - 1) >= root * root) by (nonlinear_arith)
                requires
                    other - 1 >= root,
                    root >= 1,
            ;
        }
    } else {
        assert(root == 64);
        assert(other > 64) by {
            if other <= 64 {
                assert(other * other <= 64 * 64) by (nonlinear_arith)
                    requires
                        0 <= other <= 64,
                ;
            }
        }
        assert(64int / other as int == 0) by (nonlinear_arith)
            requires
                other > 64,
        ;
    }
}

/// One driver-to-sink edge of the star model.
#[derive(Clone, Copy, Debug, PartialEq, Eq, Structural)]
pub struct StarEdge {
    /// Driving cell.
    pub driver: CellId,
    /// Driven cell.
    pub sink: CellId,
    /// Pull of the edge.
    pub weight: u64,
    /// Whether the edge is timed.
    pub timing_driven: bool,
    /// Free distance of the edge.
    pub budget: u32,
}

impl<'a> PlacementWeights<'a> {
    /// The tables are ordered.
    pub open spec fn wf(&self) -> bool {
        &&& self.net_weights matches Some(table) ==> table.wf()
        &&& self.sink_weights matches Some(table) ==> table.wf()
        &&& self.sink_budgets matches Some(table) ==> table.wf()
    }

    /// Weight of a net.
    pub open spec fn net_weight(&self, net: NetId) -> u64 {
        match self.net_weights {
            Some(table) => if table@.contains_key(net) {
                table@[net]
            } else {
                1
            },
            None => 1,
        }
    }

    /// Weight of a sink, where it has one of its own.
    pub open spec fn sink_weight(&self, connection: Connection) -> Option<u64> {
        match self.sink_weights {
            Some(table) => if table@.contains_key(connection) {
                Some(table@[connection])
            } else {
                None
            },
            None => None,
        }
    }

    /// Free distance of a sink.
    pub open spec fn sink_budget(&self, connection: Connection) -> u32 {
        match self.sink_budgets {
            Some(table) => if table@.contains_key(connection) {
                table@[connection]
            } else {
                0
            },
            None => 0,
        }
    }

    /// Greatest weight above one of some sinks.
    pub open spec fn strongest(&self, net: NetId, sinks: Seq<CellPinId>) -> Option<u64>
        decreases sinks.len(),
    {
        if sinks.len() == 0 {
            None
        } else {
            let rest = self.strongest(net, sinks.drop_last());
            match self.sink_weight(Connection { net, sink: sinks.last() }) {
                Some(weight) => if weight > 1 && (rest matches Some(known) ==> weight > known) {
                    Some(weight)
                } else {
                    rest
                },
                None => rest,
            }
        }
    }

    /// Greatest weight above one of the sinks of a wide net.
    pub open spec fn strongest_wide(&self, net: NetId, sinks: Seq<CellPinId>) -> Option<u64> {
        if sinks.len() > MAX_LOCAL_STAR_FANOUT {
            self.strongest(net, sinks)
        } else {
            None
        }
    }

    /// The edge from a net's driver to one of its sinks, given the weight of the fanout.
    pub open spec fn edge(&self, design: &Design, fanout_weight: u64, net: int, sink: int) -> StarEdge {
        let record = design.nets@[net];
        let id = NetId(net as usize);
        let pin = record.sinks@[sink];
        let connection = Connection { net: id, sink: pin };
        let driver = design.pins@[record.driver.0 as int].cell;
        let own = self.sink_weight(connection);
        let timing = match own {
            Some(weight) => weight,
            None => self.net_weight(id),
        };
        let strongest = self.strongest_wide(id, record.sinks@);
        let retained = own is Some && own == strongest;
        StarEdge {
            driver,
            sink: design.pins@[pin.0 as int].cell,
            weight: if design.cells@[driver.0 as int].kind == ResourceKind::Clock || (
            record.sinks@.len() > MAX_LOCAL_STAR_FANOUT && !retained) {
                0
            } else {
                clip_u64(fanout_weight * timing) as u64
            },
            timing_driven: timing > 1,
            budget: self.sink_budget(connection),
        }
    }

    /// Greatest weight above one of the sinks of a wide net.
    fn find_strongest(&self, net: NetId, sinks: &Vec<CellPinId>) -> (result: Option<u64>)
        requires
            self.wf(),
        ensures
            result == self.strongest_wide(net, sinks@),
    {
        if sinks.len() <= MAX_LOCAL_STAR_FANOUT {
            return None;
        }
        let mut best: Option<u64> = None;
        let mut index: usize = 0;
        while index < sinks.len()
            invariant
                index <= sinks@.len(),
                self.wf(),
                best == self.strongest(net, sinks@.take(index as int)),
            decreases sinks@.len() - index,
        {
            proof {
                assert(sinks@.take(index + 1).drop_last() =~= sinks@.take(index as int));
                assert(sinks@.take(index + 1).last() == sinks@[index as int]);
            }
            if let Some(weight) = self.find_sink_weight(Connection { net, sink: sinks[index] }) {
                let better = match best {
                    Some(known) => weight > known,
                    None => true,
                };
                if weight > 1 && better {
                    best = Some(weight);
                }
            }
            index = index + 1;
        }
        assert(sinks@.take(index as int) =~= sinks@);
        best
    }

    /// Weight of a sink, where it has one of its own.
    fn find_sink_weight(&self, connection: Connection) -> (result: Option<u64>)
        requires
            self.wf(),
        ensures
            result == self.sink_weight(connection),
    {
        match self.sink_weights {
            Some(table) => match table.get(connection) {
                Some(weight) => Some(*weight),
                None => None,
            },
            None => None,
        }
    }

    /// The edge from a net's driver to one of its sinks.
    fn find_edge(
        &self,
        design: &Design,
        net: usize,
        sink: usize,
        fanout_weight: u64,
        strongest: Option<u64>,
    ) -> (result: StarEdge)
        requires
            design.wf(),
            self.wf(),
            net < design.nets@.len(),
            sink < design.nets@[net as int].sinks@.len(),
            strongest == self.strongest_wide(NetId(net), design.nets@[net as int].sinks@),
        ensures
            result == self.edge(design, fanout_weight, net as int, sink as int),
            result.driver.0 < design.cells@.len(),
            result.sink.0 < design.cells@.len(),
    {
        let record = &design.nets[net];
        let pin = record.sinks[sink];
        assert(design.nets@[net as int].sinks@[sink as int] == pin);
        let connection = Connection { net: NetId(net), sink: pin };
        let driver = design.pins[record.driver.0].cell;
        let own = self.find_sink_weight(connection);
        let net_weight: u64 = match self.net_weights {
            Some(table) => match table.get(NetId(net)) {
                Some(weight) => *weight,
                None => 1,
            },
            None => 1,
        };
        let timing: u64 = match own {
            Some(weight) => weight,
            None => net_weight,
        };
        let budget: u32 = match self.sink_budgets {
            Some(table) => match table.get(connection) {
                Some(budget) => *budget,
                None => 0,
            },
            None => 0,
        };
        let retained = match (own, strongest) {
            (Some(weight), Some(best)) => weight == best,
            _ => false,
        };
        let silent = design.cells[driver.0].kind == ResourceKind::Clock || (record.sinks.len()
            > MAX_LOCAL_STAR_FANOUT && !retained);
        let weight: u64 = if silent {
            0
        } else {
            crate::cost::saturating_product(fanout_weight, timing)
        };
        StarEdge {
            driver,
            sink: design.pins[pin.0].cell,
            weight,
            timing_driven: timing > 1,
            budget,
        }
    }
}

/// Neighbors of a cell with one more edge.
pub open spec fn with_edge(
    list: Seq<PlacementNeighbor>,
    edge: StarEdge,
    cell: CellId,
) -> Seq<PlacementNeighbor> {
    if edge.driver == edge.sink || edge.weight == 0 {
        list
    } else if cell == edge.driver {
        list.push(
            PlacementNeighbor {
                cell: edge.sink,
                weight: edge.weight,
                timing_driven: edge.timing_driven,
                budget: edge.budget,
            },
        )
    } else if cell == edge.sink {
        list.push(
            PlacementNeighbor {
                cell: edge.driver,
                weight: edge.weight,
                timing_driven: edge.timing_driven,
                budget: edge.budget,
            },
        )
    } else {
        list
    }
}

/// Weight of a net's fanout.
pub open spec fn fanout_weight(fanout: nat) -> u64 {
    let root = choose|root: nat| is_ceil_root(root, counted_fanout(fanout));
    root_share(root) as u64
}

/// Every number has a root that its square reaches first.
pub(crate) proof fn lemma_ceil_root_exists(fanout: nat) -> (root: nat)
    requires
        fanout >= 1,
    ensures
        is_ceil_root(root, fanout),
    decreases fanout,
{
    if fanout == 1 {
        assert(is_ceil_root(1, 1)) by {
            assert(1 * 1 == 1);
            assert(0 * 0 == 0);
        }
        1
    } else {
        let below = lemma_ceil_root_exists((fanout - 1) as nat);
        if below * below >= fanout {
            assert((below - 1) * (below - 1) < fanout);
            below
        } else {
            assert((below + 1) * (below + 1) >= fanout) by (nonlinear_arith)
                requires
                    below * below >= fanout - 1,
                    below >= 0,
                    fanout >= 2,
            ;
            below + 1
        }
    }
}

/// Neighbors of a cell by the edges of the first nets and the first sinks of the next.
pub open spec fn neighbors_upto(
    design: &Design,
    weights: PlacementWeights<'_>,
    cell: CellId,
    net: int,
    sink: int,
) -> Seq<PlacementNeighbor>
    decreases net, sink,
{
    if sink > 0 {
        with_edge(
            neighbors_upto(design, weights, cell, net, sink - 1),
            weights.edge(
                design,
                fanout_weight(design.nets@[net].sinks@.len()),
                net,
                sink - 1,
            ),
            cell,
        )
    } else if net > 0 {
        neighbors_upto(
            design,
            weights,
            cell,
            net - 1,
            design.nets@[net - 1].sinks@.len() as int,
        )
    } else {
        Seq::empty()
    }
}

/// Neighbors of a cell by every edge of the design.
pub open spec fn neighbors_of(
    design: &Design,
    weights: PlacementWeights<'_>,
    cell: CellId,
) -> Seq<PlacementNeighbor> {
    neighbors_upto(design, weights, cell, design.nets@.len() as int, 0)
}

/// Number of edges between different cells that end at a cell, as far as it is counted.
pub open spec fn degree_upto(
    design: &Design,
    weights: PlacementWeights<'_>,
    cell: CellId,
    net: int,
    sink: int,
) -> nat
    decreases net, sink,
{
    if sink > 0 {
        let rest = degree_upto(design, weights, cell, net, sink - 1);
        let edge = weights.edge(
            design,
            fanout_weight(design.nets@[net].sinks@.len()),
            net,
            sink - 1,
        );
        if edge.driver != edge.sink && (cell == edge.driver || cell == edge.sink) && rest
            < usize::MAX {
            rest + 1
        } else {
            rest
        }
    } else if net > 0 {
        degree_upto(
            design,
            weights,
            cell,
            net - 1,
            design.nets@[net - 1].sinks@.len() as int,
        )
    } else {
        0
    }
}

/// The lists hold the neighbors of every cell.
pub open spec fn are_neighbors(
    design: &Design,
    weights: PlacementWeights<'_>,
    lists: Seq<Vec<PlacementNeighbor>>,
) -> bool {
    &&& lists.len() == design.cells@.len()
    &&& forall|c: int|
        0 <= c < lists.len() ==> (#[trigger] lists[c])@ == neighbors_of(
            design,
            weights,
            CellId(c as usize),
        )
}

/// The numbers are the degrees of the cells.
pub open spec fn are_degrees(
    design: &Design,
    weights: PlacementWeights<'_>,
    degree: Seq<usize>,
) -> bool {
    &&& degree.len() == design.cells@.len()
    &&& forall|c: int|
        0 <= c < degree.len() ==> #[trigger] degree[c] == degree_upto(
            design,
            weights,
            CellId(c as usize),
            design.nets@.len() as int,
            0,
        )
}

/// Every listed neighbor is a cell of the design.
pub open spec fn neighbors_in_range(lists: Seq<Vec<PlacementNeighbor>>, count: int) -> bool {
    &&& lists.len() == count
    &&& forall|c: int, k: int|
        #![trigger lists[c]@[k]]
        0 <= c < lists.len() && 0 <= k < lists[c]@.len() ==> lists[c]@[k].cell.0 < count
}

/// Enters an edge at both of its ends.
fn enter_edge(lists: &mut Vec<Vec<PlacementNeighbor>>, edge: StarEdge)
    requires
        edge.driver.0 < old(lists)@.len(),
        edge.sink.0 < old(lists)@.len(),
        neighbors_in_range(old(lists)@, old(lists)@.len() as int),
    ensures
        final(lists)@.len() == old(lists)@.len(),
        neighbors_in_range(final(lists)@, final(lists)@.len() as int),
        forall|c: int|
            0 <= c < final(lists)@.len() ==> (#[trigger] final(lists)@[c])@ == with_edge(
                old(lists)@[c]@,
                edge,
                CellId(c as usize),
            ),
{
    assert(lists.len() == lists@.len());
    let ghost before = lists@;
    if edge.driver != edge.sink && edge.weight != 0 {
        lists[edge.driver.0].push(
            PlacementNeighbor {
                cell: edge.sink,
                weight: edge.weight,
                timing_driven: edge.timing_driven,
                budget: edge.budget,
            },
        );
        let ghost middle = lists@;
        lists[edge.sink.0].push(
            PlacementNeighbor {
                cell: edge.driver,
                weight: edge.weight,
                timing_driven: edge.timing_driven,
                budget: edge.budget,
            },
        );
        proof {
            assert forall|c: int, k: int|
                #![trigger lists@[c]@[k]]
                0 <= c < lists@.len() && 0 <= k < lists@[c]@.len() implies lists@[c]@[k].cell.0
                < lists@.len() by {
                if k < before[c]@.len() {
                    assert(lists@[c]@[k] == before[c]@[k]);
                }
            }
        }
    }
}

/// Star-model neighbors of every cell, and how many edges end at each.
pub fn placement_neighbors(design: &Design, weights: PlacementWeights<'_>) -> (result: (
    Vec<usize>,
    Vec<Vec<PlacementNeighbor>>,
))
    requires
        design.wf(),
        weights.wf(),
    ensures
        are_degrees(design, weights, result.0@),
        are_neighbors(design, weights, result.1@),
        neighbors_in_range(result.1@, design.cells@.len() as int),
{
    let mut degree: Vec<usize> = Vec::new();
    let mut lists: Vec<Vec<PlacementNeighbor>> = Vec::new();
    let mut filler: usize = 0;
    while filler < design.cells.len()
        invariant
            filler <= design.cells@.len(),
            degree@.len() == filler,
            lists@.len() == filler,
            forall|c: int| 0 <= c < filler ==> #[trigger] degree@[c] == 0,
            forall|c: int| 0 <= c < filler ==> (#[trigger] lists@[c])@.len() == 0,
        decreases design.cells@.len() - filler,
    {
        degree.push(0);
        lists.push(Vec::new());
        filler = filler + 1;
    }
    proof {
        assert forall|c: int| 0 <= c < lists@.len() implies (#[trigger] lists@[c])@
            == neighbors_upto(design, weights, CellId(c as usize), 0, 0) by {
            assert(lists@[c]@ =~= Seq::<PlacementNeighbor>::empty());
        }
    }
    let mut net: usize = 0;
    while net < design.nets.len()
        invariant
            net <= design.nets@.len(),
            design.wf(),
            weights.wf(),
            degree@.len() == design.cells@.len(),
            lists@.len() == design.cells@.len(),
            neighbors_in_range(lists@, design.cells@.len() as int),
            forall|c: int|
                0 <= c < degree@.len() ==> #[trigger] degree@[c] == degree_upto(
                    design,
                    weights,
                    CellId(c as usize),
                    net as int,
                    0,
                ),
            forall|c: int|
                0 <= c < lists@.len() ==> (#[trigger] lists@[c])@ == neighbors_upto(
                    design,
                    weights,
                    CellId(c as usize),
                    net as int,
                    0,
                ),
        decreases design.nets@.len() - net,
    {
        let sinks = &design.nets[net].sinks;
        let weight: u64 = fanout_placement_weight(sinks.len());
        let strongest = weights.find_strongest(NetId(net), sinks);
        proof {
            lemma_fanout_weight(weight, sinks@.len());
        }
        let mut sink: usize = 0;
        while sink < sinks.len()
            invariant
                sink <= sinks@.len(),
                net < design.nets@.len(),
                *sinks == design.nets@[net as int].sinks,
                design.wf(),
                weights.wf(),
                weight == fanout_weight(sinks@.len()),
                strongest == weights.strongest_wide(NetId(net), sinks@),
                degree@.len() == design.cells@.len(),
                lists@.len() == design.cells@.len(),
                neighbors_in_range(lists@, design.cells@.len() as int),
                forall|c: int|
                    0 <= c < degree@.len() ==> #[trigger] degree@[c] == degree_upto(
                        design,
                        weights,
                        CellId(c as usize),
                        net as int,
                        sink as int,
                    ),
                forall|c: int|
                    0 <= c < lists@.len() ==> (#[trigger] lists@[c])@ == neighbors_upto(
                        design,
                        weights,
                        CellId(c as usize),
                        net as int,
                        sink as int,
                    ),
            decreases sinks@.len() - sink,
        {
            let edge = weights.find_edge(design, net, sink, weight, strongest);
            let ghost counts = degree@;
            let ghost before = lists@;
            if edge.driver != edge.sink {
                degree.set(edge.driver.0, degree[edge.driver.0].saturating_add(1));
                degree.set(edge.sink.0, degree[edge.sink.0].saturating_add(1));
            }
            enter_edge(&mut lists, edge);
            proof {
                assert(degree.len() == degree@.len());
                assert forall|c: int| 0 <= c < degree@.len() implies #[trigger] degree@[c]
                    == degree_upto(
                    design,
                    weights,
                    CellId(c as usize),
                    net as int,
                    sink + 1,
                ) by {
                    assert(counts[c] == degree_upto(
                        design,
                        weights,
                        CellId(c as usize),
                        net as int,
                        sink as int,
                    ));
                }
                assert forall|c: int| 0 <= c < lists@.len() implies (#[trigger] lists@[c])@
                    == neighbors_upto(
                    design,
                    weights,
                    CellId(c as usize),
                    net as int,
                    sink + 1,
                ) by {
                    assert(before[c]@ == neighbors_upto(
                        design,
                        weights,
                        CellId(c as usize),
                        net as int,
                        sink as int,
                    ));
                }
            }
            sink = sink + 1;
        }
        proof {
            assert forall|c: int| 0 <= c < degree@.len() implies #[trigger] degree@[c]
                == degree_upto(design, weights, CellId(c as usize), net + 1, 0) by {}
            assert forall|c: int| 0 <= c < lists@.len() implies (#[trigger] lists@[c])@
                == neighbors_upto(design, weights, CellId(c as usize), net + 1, 0) by {}
        }
        net = net + 1;
    }
    (degree, lists)
}

/// The computed weight is the weight of the fanout.
proof fn lemma_fanout_weight(weight: u64, fanout: nat)
    requires
        forall|root: nat| #[trigger]
            is_ceil_root(root, counted_fanout(fanout)) ==> weight == root_share(root),
    ensures
        weight == fanout_weight(fanout),
{
    let least = counted_fanout(fanout);
    let known = lemma_ceil_root_exists(least);
    let root = choose|root: nat| is_ceil_root(root, least);
    assert(is_ceil_root(root, least));
}

/// Cost of an edge at a distance.
pub open spec fn edge_cost(edge: PlacementNeighbor, distance: int) -> int {
    let excess = if distance > edge.budget {
        distance - edge.budget
    } else {
        0
    };
    let pull = if edge.timing_driven {
        clip_u64(excess * excess) as int
    } else {
        excess
    };
    clip_u64(edge.weight * pull) as int
}

/// Cost of an edge at a distance.
pub fn refinement_edge_cost(edge: PlacementNeighbor, distance: u64) -> (result: u64)
    ensures
        result == edge_cost(edge, distance as int),
{
    let excess: u64 = distance.saturating_sub(edge.budget as u64);
    let pull: u64 = if edge.timing_driven {
        crate::cost::saturating_product(excess, excess)
    } else {
        excess
    };
    crate::cost::saturating_product(edge.weight, pull)
}

} // verus!
