//! Bounded best-first search for one routed connection.

use vstd::prelude::*;

use crate::cost::{
    ceil_div, clip_u32, clip_u64, compact_route_index, div_ceil, routing_step_cost,
    routing_transition_cost, saturating_product, saturating_u32, step_cost, timing_tree_cost,
    tree_cost, ROUTING_CRITICALITY_SCALE, ROUTING_DELAY_QUANTUM_PS,
};
use crate::device::{Device, UnifiedGraph};
use crate::frontier::{depth_is, lemma_depth_unique};
use crate::model::{PipId, Point, WireId};
use crate::ordered::{lemma_digits, OrderedKey, OrderedSet};
use crate::queue::MinQueue;
use crate::routing_costs::RoutingCosts;
use crate::search_course::{comes_first, leads_back, RouteLabel, SearchPoint};

verus! {

/// Default predicted delay of a route of length zero.
pub const ROUTING_ESTIMATE_BASE_DELAY_PS: u64 = 100;

/// Default predicted delay of each tile that a route crosses.
pub const ROUTING_ESTIMATE_DELAY_PER_TILE_PS: u64 = 100;

/// Tiles by which a timing corridor exceeds the box of its two ends.
pub const TIMING_ROUTE_MARGIN: u32 = 4;

/// Least column, greatest column, least row, and greatest row of a bounded search.
pub type RoutingCorridor = (u32, u32, u32, u32);

/// Geometry and capacity of every routing resource.
#[derive(Clone, Copy)]
pub struct RoutingResourceMetadata<'a> {
    /// Tile of each wire.
    pub wire_points: &'a [Point],
    /// Capacity of each wire.
    pub wire_capacities: &'a [u16],
    /// Capacity of each PIP.
    pub pip_capacities: &'a [u16],
}

/// Occupancy treated as immutable while improving one already-legal arc.
///
/// The negotiated router may temporarily overuse resources to escape a
/// congested solution. Here every resident connection except the released arc
/// is a hard obstacle, so that each accepted replacement remains legal.
#[derive(Clone, Copy)]
pub struct HardRoutingOccupancy<'a> {
    /// Nets on each wire.
    pub wires: &'a [u16],
    /// Nets on each PIP.
    pub pips: &'a [u16],
    /// Whether the search still follows the timing estimate.
    pub use_estimate: bool,
}

/// Full wires and PIPs that a search met.
pub struct MetResources {
    /// Wires without room.
    pub wires: Set<WireId>,
    /// PIPs without room.
    pub pips: Set<PipId>,
}

impl MetResources {
    /// The other holds as much.
    pub open spec fn within(self, other: MetResources) -> bool {
        &&& self.wires.subset_of(other.wires)
        &&& self.pips.subset_of(other.pips)
    }
}

/// Saturated resources pruned by a hard-occupancy route search.
#[derive(Clone, Debug, PartialEq, Eq)]
pub struct HardRoutingBlockers {
    /// Pruned wires.
    pub wires: OrderedSet<WireId>,
    /// Pruned PIPs.
    pub pips: OrderedSet<PipId>,
}

impl HardRoutingBlockers {
    /// What was met.
    pub open spec fn met(&self) -> MetResources {
        MetResources { wires: self.wires@, pips: self.pips@ }
    }

    /// Both sets are ordered.
    pub open spec fn wf(&self) -> bool {
        self.wires.wf() && self.pips.wf()
    }

    /// No resource was pruned.
    pub fn new() -> (result: Self)
        ensures
            result.wf(),
            result.wires@ == Set::<WireId>::empty(),
            result.pips@ == Set::<PipId>::empty(),
    {
        HardRoutingBlockers { wires: OrderedSet::new(), pips: OrderedSet::new() }
    }
}

/// Bit of a PIP within its word.
pub open spec fn pip_bit(pip: PipId) -> u64 {
    1u64 << ((pip.0 % 64) as u64)
}

/// The bit of the PIP is set in a table of sixty-four PIPs to a word.
pub open spec fn blocked_in(words: Seq<u64>, pip: PipId) -> bool {
    pip.0 / 64 < words.len() && (words[(pip.0 / 64) as int] & pip_bit(pip)) != 0
}

/// Whether the bit of the PIP is set in a table of sixty-four PIPs to a word.
pub fn pip_is_blocked(words: &[u64], pip: PipId) -> (result: bool)
    ensures
        result == blocked_in(words@, pip),
{
    let word: usize = pip.0 / 64;
    word < words.len() && (words[word] & (1u64 << ((pip.0 % 64) as u64))) != 0
}

/// The point lies in the corridor.
pub open spec fn inside_corridor(point: Point, corridor: RoutingCorridor) -> bool {
    &&& corridor.0 <= point.x <= corridor.1
    &&& corridor.2 <= point.y <= corridor.3
}

/// Whether the point lies in the corridor.
pub fn point_inside_corridor(point: Point, corridor: RoutingCorridor) -> (result: bool)
    ensures
        result == inside_corridor(point, corridor),
{
    corridor.0 <= point.x && point.x <= corridor.1 && corridor.2 <= point.y && point.y
        <= corridor.3
}

/// The smaller of two integers.
pub open spec fn smaller(a: int, b: int) -> int {
    if a <= b {
        a
    } else {
        b
    }
}

/// Lower end of a corridor side.
pub open spec fn corridor_low(a: int, b: int, margin: int) -> int {
    if smaller(a, b) >= margin {
        smaller(a, b) - margin
    } else {
        0
    }
}

/// Upper end of a corridor side on a device of one extent.
pub open spec fn corridor_high(a: int, b: int, margin: int, extent: int) -> int {
    smaller(clip_u32(if a >= b { a } else { b } + margin), extent - 1)
}

/// Box of two points, widened by a margin and clipped to the device.
pub open spec fn corridor_between(
    start: Point,
    goal: Point,
    device: &Device,
    margin: int,
) -> RoutingCorridor {
    (
        corridor_low(start.x as int, goal.x as int, margin) as u32,
        corridor_high(start.x as int, goal.x as int, margin, device.width as int) as u32,
        corridor_low(start.y as int, goal.y as int, margin) as u32,
        corridor_high(start.y as int, goal.y as int, margin, device.height as int) as u32,
    )
}

/// Box of two points, widened by a margin and clipped to the device.
pub fn routing_corridor(start: Point, goal: Point, device: &Device, margin: u32) -> (result:
    RoutingCorridor)
    requires
        device.width > 0,
        device.height > 0,
    ensures
        result == corridor_between(start, goal, device, margin as int),
        device.holds(start) ==> inside_corridor(start, result),
        device.holds(goal) ==> inside_corridor(goal, result),
{
    (
        start.x.min(goal.x).saturating_sub(margin),
        start.x.max(goal.x).saturating_add(margin).min(device.width() - 1),
        start.y.min(goal.y).saturating_sub(margin),
        start.y.max(goal.y).saturating_add(margin).min(device.height() - 1),
    )
}

/// One frontier entry: entries leave the queue by estimate, then distance,
/// then arrival, then wire.
#[derive(Clone, Copy, Debug, PartialEq, Eq, Structural)]
pub struct RouteQueueEntry {
    /// Predicted cost of a whole route through the wire.
    pub estimate: u32,
    /// Cost of the route up to the wire.
    pub distance: u32,
    /// Arrival at the wire.
    pub arrival_ps: u32,
    /// Reached wire.
    pub wire: u32,
}

impl OrderedKey for RouteQueueEntry {
    open spec fn rank(self) -> int {
        self.estimate * 0x1_0000_0000_0000_0000_0000_0000 + self.distance * 0x1_0000_0000_0000_0000
            + self.arrival_ps * 0x1_0000_0000 + self.wire
    }

    proof fn rank_is_injective(a: Self, b: Self) {
        lemma_digits(
            a.estimate * 0x1_0000_0000_0000_0000 + a.distance * 0x1_0000_0000 + a.arrival_ps,
            a.wire as int,
            b.estimate * 0x1_0000_0000_0000_0000 + b.distance * 0x1_0000_0000 + b.arrival_ps,
            b.wire as int,
            0x1_0000_0000,
        );
        lemma_digits(
            a.estimate * 0x1_0000_0000 + a.distance,
            a.arrival_ps as int,
            b.estimate * 0x1_0000_0000 + b.distance,
            b.arrival_ps as int,
            0x1_0000_0000,
        );
        lemma_digits(
            a.estimate as int,
            a.distance as int,
            b.estimate as int,
            b.distance as int,
            0x1_0000_0000,
        );
    }

    fn precedes(self, other: Self) -> (result: bool) {
        if self.estimate != other.estimate {
            self.estimate < other.estimate
        } else if self.distance != other.distance {
            self.distance < other.distance
        } else if self.arrival_ps != other.arrival_ps {
            self.arrival_ps < other.arrival_ps
        } else {
            self.wire < other.wire
        }
    }
}

/// One connection to be routed, with everything that prices or forbids a hop.
#[derive(Clone, Copy)]
pub struct RouteQuery<'a> {
    /// Design and device.
    pub graph: UnifiedGraph<'a>,
    /// Wire to be reached.
    pub goal: WireId,
    /// Negotiated price of each wire.
    pub wire_congestion: &'a [u32],
    /// Negotiated price of each PIP.
    pub pip_congestion: &'a [u32],
    /// Forbidden PIPs, sixty-four to a word.
    pub blocked_pip_words: &'a [u64],
    /// Occupancy that must not be exceeded.
    pub hard_occupancy: Option<HardRoutingOccupancy<'a>>,
    /// PIP delays.
    pub costs: Option<&'a RoutingCosts>,
    /// Criticality of the connection.
    pub criticality: u64,
    /// Delay quantum of the costs.
    pub delay_quantum_ps: u64,
    /// Arrival at each wire of the tree that the connection starts from.
    pub tree_delays_ps: &'a [u64],
    /// Geometry and capacities.
    pub metadata: RoutingResourceMetadata<'a>,
}

impl<'a> RouteQuery<'a> {
    /// The tables cover the device, and the criticality and the quantum are in range.
    pub open spec fn wf(&self) -> bool {
        let wires = self.graph.device.wires@.len();
        let pips = self.graph.device.pips@.len();
        &&& self.graph.device.wf()
        &&& self.goal.0 < wires
        &&& self.wire_congestion@.len() == wires
        &&& self.pip_congestion@.len() == pips
        &&& self.metadata.wire_points@.len() == wires
        &&& self.metadata.wire_capacities@.len() == wires
        &&& self.metadata.pip_capacities@.len() == pips
        &&& self.hard_occupancy matches Some(occupancy) ==> occupancy.wires@.len() == wires
            && occupancy.pips@.len() == pips
        &&& self.costs matches Some(costs) ==> costs.pip_delays_ps@.len() == pips
            && costs.pip_min_delays_ps@.len() == pips
        &&& self.criticality <= ROUTING_CRITICALITY_SCALE
        &&& 0 < self.delay_quantum_ps <= ROUTING_DELAY_QUANTUM_PS
    }

    /// The wire can take one more net.
    pub open spec fn wire_free(&self, wire: WireId) -> bool {
        self.hard_occupancy matches Some(occupancy) ==> occupancy.wires@[wire.0 as int]
            < self.metadata.wire_capacities@[wire.0 as int]
    }

    /// The PIP can take one more net.
    pub open spec fn pip_free(&self, pip: PipId) -> bool {
        self.hard_occupancy matches Some(occupancy) ==> occupancy.pips@[pip.0 as int]
            < self.metadata.pip_capacities@[pip.0 as int]
    }

    /// A route may pass from one wire to another by the PIP.
    pub open spec fn hop_open(&self, from: WireId, pip: PipId, to: WireId) -> bool {
        &&& self.graph.device.leads(from, pip, to)
        &&& !blocked_in(self.blocked_pip_words@, pip)
        &&& self.wire_free(to)
        &&& self.pip_free(pip)
    }

    /// Maximum delay of a PIP.
    pub open spec fn pip_delay(&self, pip: PipId) -> int {
        match self.costs {
            Some(costs) => costs.pip_delays_ps@[pip.0 as int] as int,
            None => 0,
        }
    }

    /// Negotiated price of passing a PIP to a wire.
    pub open spec fn congestion(&self, pip: PipId, to: WireId) -> int {
        self.wire_congestion@[to.0 as int] + self.pip_congestion@[pip.0 as int]
    }

    /// Cost of one hop where every PIP delay is rounded by itself.
    pub open spec fn hop_cost(&self, pip: PipId, to: WireId) -> int {
        step_cost(
            self.pip_delay(pip),
            self.criticality as int,
            self.congestion(pip, to),
            self.delay_quantum_ps as int,
        )
    }

    /// Cost of a route after one more hop, in the compact form of the frontier.
    pub open spec fn relax(&self, cost: int, pip: PipId, to: WireId) -> int {
        clip_u32(clip_u64(cost + self.hop_cost(pip, to)))
    }

    /// Cost of starting from a tree wire, in the compact form of the frontier.
    pub open spec fn start_cost(&self, start: WireId) -> int {
        clip_u32(
            tree_cost(
                self.tree_delays_ps@[start.0 as int] as int,
                self.criticality as int,
                self.delay_quantum_ps as int,
            ),
        )
    }

    /// Whether every PIP delay is rounded by itself, so that a hop has one cost
    /// whatever route led to it.
    pub open spec fn has_fixed_costs(&self) -> bool {
        self.delay_quantum_ps == ROUTING_DELAY_QUANTUM_PS
    }

    /// Whether the search follows the timing estimate.
    pub open spec fn follows_estimate(&self) -> bool {
        self.hard_occupancy matches Some(occupancy) ==> occupancy.use_estimate
    }
}

/// The wires and hops that one search may use.
pub struct SearchSpace<'a> {
    /// Connection to be routed.
    pub query: RouteQuery<'a>,
    /// Tree wires that the route may start from.
    pub starts: Set<WireId>,
    /// Wires that a route may not enter.
    pub closed_wires: Set<WireId>,
    /// Tiles that the search is confined to.
    pub corridor: Option<RoutingCorridor>,
}

impl<'a> SearchSpace<'a> {
    /// The wire lies in the corridor.
    pub open spec fn contains(&self, wire: WireId) -> bool {
        self.corridor matches Some(corridor) ==> inside_corridor(
            self.query.metadata.wire_points@[wire.0 as int],
            corridor,
        )
    }

    /// One hop leads from the wire into the corridor.
    pub open spec fn borders(&self, wire: WireId) -> bool {
        exists|k: int|
            0 <= k < self.query.graph.device.neighbors@[wire.0 as int]@.len() && self.contains(
                (#[trigger] self.query.graph.device.neighbors@[wire.0 as int]@[k]).0,
            )
    }

    /// The search begins at the wire.
    pub open spec fn seed(&self, wire: WireId) -> bool {
        self.starts.contains(wire) && (self.contains(wire) || self.borders(wire))
    }

    /// The search may pass from one wire to another by the PIP.
    pub open spec fn hop(&self, from: WireId, pip: PipId, to: WireId) -> bool {
        &&& self.query.hop_open(from, pip, to)
        &&& !self.closed_wires.contains(to)
        &&& self.contains(to)
    }

    /// The search could pass from one wire to another by the PIP, were there room.
    pub open spec fn wants(&self, from: WireId, pip: PipId, to: WireId) -> bool {
        &&& self.query.graph.device.leads(from, pip, to)
        &&& !blocked_in(self.query.blocked_pip_words@, pip)
        &&& !self.closed_wires.contains(to)
        &&& self.contains(to)
    }

    /// What leaves no room for the hop was met.
    pub open spec fn meets_hop(&self, wire: WireId, index: int, met: MetResources) -> bool {
        let hop = self.query.graph.device.neighbors@[wire.0 as int]@[index];
        self.wants(wire, hop.1, hop.0) ==> {
            &&& !self.query.wire_free(hop.0) ==> met.wires.contains(hop.0)
            &&& !self.query.pip_free(hop.1) ==> met.pips.contains(hop.1)
        }
    }

    /// What leaves no room for the first hops of the wire was met.
    pub open spec fn meets_first(&self, wire: WireId, count: int, met: MetResources) -> bool {
        forall|k: int| 0 <= k < count ==> #[trigger] self.meets_hop(wire, k, met)
    }

    /// What leaves no room for a hop of the wire was met.
    pub open spec fn meets(&self, wire: WireId, met: MetResources) -> bool {
        self.meets_first(
            wire,
            self.query.graph.device.neighbors@[wire.0 as int]@.len() as int,
            met,
        )
    }

    /// What was met stays met.
    pub proof fn lemma_meets_more(
        &self,
        wire: WireId,
        count: int,
        met: MetResources,
        more: MetResources,
    )
        requires
            self.meets_first(wire, count, met),
            met.within(more),
        ensures
            self.meets_first(wire, count, more),
    {
        assert forall|k: int| 0 <= k < count implies #[trigger] self.meets_hop(wire, k, more) by {
            assert(self.meets_hop(wire, k, met));
        }
    }

    /// A route from a tree wire: wires, and the PIP between each two of them.
    pub open spec fn is_walk(&self, wires: Seq<WireId>, pips: Seq<PipId>) -> bool {
        &&& wires.len() == pips.len() + 1
        &&& self.seed(wires[0])
        &&& forall|i: int|
            0 <= i < pips.len() ==> self.hop(wires[i], #[trigger] pips[i], wires[i + 1])
    }

    /// Cost of a walk up to one of its wires, each PIP delay rounded by itself.
    pub open spec fn walk_cost(&self, wires: Seq<WireId>, pips: Seq<PipId>, index: int) -> int
        decreases index,
    {
        if index <= 0 {
            self.query.start_cost(wires[0])
        } else {
            self.query.relax(
                self.walk_cost(wires, pips, index - 1),
                pips[index - 1],
                wires[index],
            )
        }
    }
}

/// Predicted cost of the rest of a route over some distance.
pub open spec fn remaining_estimate(
    base_delay_ps: int,
    delay_per_tile_ps: int,
    distance: int,
    criticality: int,
    delay_quantum_ps: int,
) -> int {
    if criticality == 0 {
        distance
    } else {
        clip_u64(
            tree_cost(
                clip_u64(base_delay_ps + clip_u64(distance * delay_per_tile_ps)),
                criticality,
                delay_quantum_ps,
            ) + ceil_div(
                clip_u64(distance * (ROUTING_CRITICALITY_SCALE - criticality)),
                ROUTING_CRITICALITY_SCALE as int,
            ),
        )
    }
}

/// State of the route search, kept across connections.
#[derive(Clone, Debug)]
pub struct RouteSearch {
    /// Number of the current search; a stamp of another search is void.
    pub epoch: u32,
    /// Search that last reached each wire.
    pub seen: Vec<u32>,
    /// Search that last closed each wire.
    pub start_mark: Vec<u32>,
    /// Cost of the route to each reached wire.
    pub distance: Vec<u32>,
    /// Arrival at each reached wire.
    pub arrival_ps: Vec<u32>,
    /// Wire before each reached wire, or the greatest value at a tree wire.
    pub previous_wire: Vec<u32>,
    /// PIP into each reached wire.
    pub previous_pip: Vec<u32>,
    /// Wires still to be expanded.
    pub queue: MinQueue<RouteQueueEntry>,
    /// Predicted delay of a route of length zero.
    pub estimate_base_delay_ps: u64,
    /// Predicted delay of each tile.
    pub estimate_delay_per_tile_ps: u64,
    /// Number of alternate-source searches made.
    pub alternate_source_attempts: u64,
    /// Number of alternate-source searches that found a better route.
    pub alternate_source_improvements: u64,
}

impl RouteSearch {
    /// Every table covers the wires, and no stamp is newer than the current search.
    pub open spec fn wf(&self, wire_count: int) -> bool {
        &&& wire_count < u32::MAX
        &&& self.seen@.len() == wire_count
        &&& self.start_mark@.len() == wire_count
        &&& self.distance@.len() == wire_count
        &&& self.arrival_ps@.len() == wire_count
        &&& self.previous_wire@.len() == wire_count
        &&& self.previous_pip@.len() == wire_count
        &&& self.queue.wf()
        &&& forall|w: int| 0 <= w < wire_count ==> #[trigger] self.seen@[w] <= self.epoch
        &&& forall|w: int| 0 <= w < wire_count ==> #[trigger] self.start_mark@[w] <= self.epoch
    }

    /// Delays are estimated by the two constants of this module.
    pub open spec fn has_standard_estimates(&self) -> bool {
        &&& self.estimate_base_delay_ps == ROUTING_ESTIMATE_BASE_DELAY_PS
        &&& self.estimate_delay_per_tile_ps == ROUTING_ESTIMATE_DELAY_PER_TILE_PS
    }

    /// A search over a device with some number of wires.
    pub fn new(wire_count: usize) -> (result: Self)
        requires
            wire_count < u32::MAX,
        ensures
            result.wf(wire_count as int),
            result.estimate_base_delay_ps == ROUTING_ESTIMATE_BASE_DELAY_PS,
            result.estimate_delay_per_tile_ps == ROUTING_ESTIMATE_DELAY_PER_TILE_PS,
            result.alternate_source_attempts == 0,
            result.alternate_source_improvements == 0,
    {
        RouteSearch {
            epoch: 0,
            seen: vec![0u32; wire_count],
            start_mark: vec![0u32; wire_count],
            distance: vec![0u32; wire_count],
            arrival_ps: vec![0u32; wire_count],
            previous_wire: vec![u32::MAX; wire_count],
            previous_pip: vec![u32::MAX; wire_count],
            queue: MinQueue::new(),
            estimate_base_delay_ps: ROUTING_ESTIMATE_BASE_DELAY_PS,
            estimate_delay_per_tile_ps: ROUTING_ESTIMATE_DELAY_PER_TILE_PS,
            alternate_source_attempts: 0,
            alternate_source_improvements: 0,
        }
    }

    /// Predicted cost of the rest of a route, in units of the path score.
    ///
    /// Raw Manhattan distance is in tiles while the accumulated path score
    /// blends picosecond delay with congestion. Converting a geometry delay
    /// prediction into that same score keeps the two comparable.
    pub fn remaining_cost_estimate(
        &self,
        point: Point,
        goal: Point,
        criticality: u64,
        delay_quantum_ps: u64,
    ) -> (result: u64)
        requires
            criticality <= ROUTING_CRITICALITY_SCALE,
            delay_quantum_ps > 0,
        ensures
            result == remaining_estimate(
                self.estimate_base_delay_ps as int,
                self.estimate_delay_per_tile_ps as int,
                point.distance(goal),
                criticality as int,
                delay_quantum_ps as int,
            ),
    {
        self.remaining_cost_estimate_with_delay(
            point,
            goal,
            criticality,
            delay_quantum_ps,
            self.estimate_delay_per_tile_ps,
        )
    }

    /// Predicted cost of the rest of a route under another delay of each tile.
    pub fn remaining_cost_estimate_with_delay(
        &self,
        point: Point,
        goal: Point,
        criticality: u64,
        delay_quantum_ps: u64,
        delay_per_tile_ps: u64,
    ) -> (result: u64)
        requires
            criticality <= ROUTING_CRITICALITY_SCALE,
            delay_quantum_ps > 0,
        ensures
            result == remaining_estimate(
                self.estimate_base_delay_ps as int,
                delay_per_tile_ps as int,
                point.distance(goal),
                criticality as int,
                delay_quantum_ps as int,
            ),
    {
        let distance: u64 = point.manhattan(goal);
        if criticality == 0 {
            return distance;
        }
        let predicted_delay_ps: u64 = self.estimate_base_delay_ps.saturating_add(
            saturating_product(distance, delay_per_tile_ps),
        );
        let timing: u64 = timing_tree_cost(predicted_delay_ps, criticality, delay_quantum_ps);
        let hop_bias: u64 = div_ceil(
            saturating_product(distance, ROUTING_CRITICALITY_SCALE - criticality),
            ROUTING_CRITICALITY_SCALE,
        );
        timing.saturating_add(hop_bias)
    }

    /// Predicted cost of the rest of a route from one wire.
    pub open spec fn estimate_from(&self, query: RouteQuery<'_>, wire: int) -> int {
        if query.follows_estimate() {
            remaining_estimate(
                self.estimate_base_delay_ps as int,
                self.estimate_delay_per_tile_ps as int,
                query.metadata.wire_points@[wire].distance(
                    query.metadata.wire_points@[query.goal.0 as int],
                ),
                query.criticality as int,
                query.delay_quantum_ps as int,
            )
        } else {
            0
        }
    }

    /// Predicted cost of a whole route that reaches a wire at some cost.
    pub open spec fn whole_estimate(&self, query: RouteQuery<'_>, cost: int, wire: int) -> int {
        clip_u32(clip_u64(cost + self.estimate_from(query, wire)))
    }

    /// Opens a new search: nothing is reached, and the tree and the avoided wires are closed.
    fn begin(&mut self, starts: &OrderedSet<WireId>, avoid: Option<&OrderedSet<WireId>>)
        requires
            old(self).wf(old(self).seen@.len() as int),
            starts_fit(starts, avoid, old(self).seen@.len() as int),
        ensures
            final(self).wf(old(self).seen@.len() as int),
            final(self).queue@.len() == 0,
            forall|w: int| 0 <= w < final(self).seen@.len() ==> !#[trigger] final(self).reached(w),
            forall|w: int|
                0 <= w < final(self).seen@.len() ==> (#[trigger] final(self).start_mark@[w] == final(
                    self).epoch <==> closed_wires(starts, avoid).contains(WireId(w as usize))),
            final(self).same_settings(old(self)),
    {
        broadcast use vstd::multiset::group_multiset_axioms;

        let count: usize = self.seen.len();
        if self.epoch == u32::MAX {
            self.seen = vec![0u32; count];
            self.start_mark = vec![0u32; count];
            self.epoch = 1;
        } else {
            self.epoch = self.epoch + 1;
        }
        self.queue.clear();
        let ghost nothing = Set::<WireId>::empty();
        match avoid {
            Some(wires) => {
                self.mark_all(wires, Ghost(nothing));
                self.mark_all(starts, Ghost(wires@));
            },
            None => {
                self.mark_all(starts, Ghost(nothing));
            },
        }
    }

    /// Closes every wire of a set for the current search.
    fn mark_all(&mut self, wires: &OrderedSet<WireId>, Ghost(closed): Ghost<Set<WireId>>)
        requires
            old(self).wf(old(self).seen@.len() as int),
            wires.wf(),
            forall|w: WireId| #[trigger] wires@.contains(w) ==> w.0 < old(self).seen@.len(),
            forall|w: int|
                0 <= w < old(self).seen@.len() ==> (#[trigger] old(self).start_mark@[w] == old(
                    self).epoch <==> closed.contains(WireId(w as usize))),
        ensures
            final(self).wf(old(self).seen@.len() as int),
            final(self).epoch == old(self).epoch,
            final(self).seen == old(self).seen,
            final(self).queue == old(self).queue,
            forall|w: int|
                0 <= w < old(self).seen@.len() ==> (#[trigger] final(self).start_mark@[w] == final(
                    self).epoch <==> closed.union(wires@).contains(WireId(w as usize))),
            final(self).same_settings(old(self)),
    {
        let mut index: usize = 0;
        while index < wires.len()
            invariant
                index <= wires.ordered().len(),
                self.wf(old(self).seen@.len() as int),
                self.epoch == old(self).epoch,
                self.seen == old(self).seen,
                self.queue == old(self).queue,
                self.same_settings(old(self)),
                forall|w: WireId| #[trigger] wires@.contains(w) ==> w.0 < old(self).seen@.len(),
                forall|w: int|
                    0 <= w < self.seen@.len() ==> (#[trigger] self.start_mark@[w] == self.epoch
                        <==> closed.union(
                        wires.ordered().take(index as int).to_set(),
                    ).contains(WireId(w as usize))),
            decreases wires.ordered().len() - index,
        {
            let wire = wires.at(index);
            let ghost before = self.start_mark@;
            self.start_mark.set(wire.0, self.epoch);
            proof {
                crate::ordered::lemma_take_step(wires.ordered(), index as int);
                assert forall|w: int| 0 <= w < self.seen@.len() implies (
                #[trigger] self.start_mark@[w] == self.epoch <==> closed.union(
                    wires.ordered().take(index + 1).to_set(),
                ).contains(WireId(w as usize))) by {
                    assert(before[w] == self.epoch <==> closed.union(
                        wires.ordered().take(index as int).to_set(),
                    ).contains(WireId(w as usize)));
                    assert(WireId(w as usize).0 == w);
                }
            }
            index = index + 1;
        }
        proof {
            assert(wires.ordered().take(wires.ordered().len() as int) =~= wires.ordered());
            assert(wires.ordered().to_set() =~= wires@) by {
                assert forall|w: WireId| wires.ordered().to_set().contains(w) <==> wires@.contains(
                    w,
                ) by {
                    wires.membership(w);
                }
            }
        }
    }

    /// Reaches every tree wire from which the search can enter its space.
    fn seed_starts(
        &mut self,
        query: &RouteQuery<'_>,
        starts: &OrderedSet<WireId>,
        corridor: Option<RoutingCorridor>,
        Ghost(space): Ghost<SearchSpace<'_>>,
    )
        requires
            old(self).wf(query.graph.device.wires@.len() as int),
            query.wf(),
            space.query == *query,
            space.starts == starts@,
            space.corridor == corridor,
            space.starts.subset_of(space.closed_wires),
            starts.wf(),
            forall|w: WireId| #[trigger]
                starts@.contains(w) ==> w.0 < query.graph.device.wires@.len() && w.0
                    < query.tree_delays_ps@.len(),
            old(self).queue@.len() == 0,
            forall|w: int| 0 <= w < old(self).seen@.len() ==> !#[trigger] old(self).reached(w),
            forall|w: int|
                0 <= w < old(self).seen@.len() ==> (#[trigger] old(self).start_mark@[w] == old(
                    self).epoch <==> space.closed_wires.contains(WireId(w as usize))),
        ensures
            final(self).sound(space),
            final(self).seeded(space),
            final(self).covered(space, -1),
            final(self).same_settings(old(self)),
            final(self).point() == old(self).sown(
                space,
                starts.ordered(),
                starts.ordered().len() as int,
            ),
    {
        broadcast use vstd::multiset::group_multiset_axioms;

        let goal_point = query.metadata.wire_points[query.goal.0];
        let mut index: usize = 0;
        proof {
            assert forall|e: RouteQueueEntry| !(#[trigger] self.queue@.contains(e)) by {
                if self.queue@.contains(e) {
                    assert(self.queue@.remove(e).insert(e) =~= self.queue@);
                    assert(self.queue@.remove(e).insert(e).len() == self.queue@.remove(e).len()
                        + 1);
                }
            }
        }
        proof {
            assert(self.labels() =~= Map::<WireId, RouteLabel>::empty());
            assert(self.queue@ =~= vstd::multiset::Multiset::<RouteQueueEntry>::empty());
        }
        while index < starts.len()
            invariant
                index <= starts.ordered().len(),
                self.point() == old(self).sown(space, starts.ordered(), index as int),
                self.sound(space),
                self.same_settings(old(self)),
                space.query == *query,
                space.starts == starts@,
                space.corridor == corridor,
                goal_point == query.metadata.wire_points@[query.goal.0 as int],
                starts.wf(),
                forall|w: WireId| #[trigger]
                    starts@.contains(w) ==> w.0 < query.graph.device.wires@.len() && w.0
                        < query.tree_delays_ps@.len(),
                forall|w: int|
                    0 <= w < self.seen@.len() && #[trigger] self.reached(w) ==> {
                        &&& self.previous_wire@[w] == u32::MAX
                        &&& self.pending(*query, w)
                    },
                forall|i: int|
                    0 <= i < index && space.seed(#[trigger] starts.ordered()[i]) ==> self.reached(
                        starts.ordered()[i].0 as int,
                    ),
            decreases starts.ordered().len() - index,
        {
            let start = starts.at(index);
            if self.can_enter(query, start, corridor, Ghost(space)) {
                let arrival_ps: u64 = query.tree_delays_ps[start.0];
                let distance: u32 = saturating_u32(
                    timing_tree_cost(arrival_ps, query.criticality, query.delay_quantum_ps),
                );
                let entry = self.frontier_entry(query, start, distance, saturating_u32(arrival_ps));
                let ghost before = *self;
                self.seen.set(start.0, self.epoch);
                self.distance.set(start.0, entry.distance);
                self.arrival_ps.set(start.0, entry.arrival_ps);
                self.previous_wire.set(start.0, u32::MAX);
                self.previous_pip.set(start.0, u32::MAX);
                self.queue.push(entry);
                proof {
                    let after = *self;
                    let wire = start.0 as int;
                    assert(WireId(wire as usize) == start);
                    assert(after.entry_of(*query, wire) == entry);
                    assert(after.labels() =~= before.labels().insert(
                        start,
                        old(self).seed_label(space, start),
                    ));
                    assert(after.point() == old(self).reach(
                        space,
                        before.point(),
                        start,
                        old(self).seed_label(space, start),
                    ));
                    assert forall|w: int| 0 <= w < after.seen@.len() && after.reached(w) implies {
                        &&& after.previous_wire@[w] == u32::MAX
                        &&& after.pending(*query, w)
                        &&& #[trigger] after.linked(space, w)
                    } by {
                        if w != wire {
                            assert(before.reached(w));
                            assert(before.linked(space, w));
                            assert(after.entry_of(*query, w) == before.entry_of(*query, w));
                        }
                    }
                    assert forall|w: int| 0 <= w < after.seen@.len() && after.reached(w) implies
                    #[trigger] after.anchored(w) by {
                        assert(after.linked(space, w));
                        assert(depth_is(after.previous_wire@, w, 0));
                    }
                    assert forall|e: RouteQueueEntry| #[trigger] after.queue@.contains(e) implies e.wire
                        < after.seen@.len() && e.estimate == after.whole_estimate(
                        *query,
                        e.distance as int,
                        e.wire as int,
                    ) by {
                        if e != entry {
                            assert(before.queue@.contains(e));
                        }
                    }
                    assert forall|w: int| 0 <= w < after.seen@.len() && #[trigger] after.reached(w) implies {
                        &&& after.previous_wire@[w] == u32::MAX
                        &&& after.pending(*query, w)
                    } by {
                        assert(after.linked(space, w));
                    }
                }
            }
            index = index + 1;
        }
        proof {
            assert forall|w: int|
                0 <= w < self.seen@.len() && #[trigger] space.seed(WireId(w as usize)) implies {
                &&& self.reached(w)
                &&& self.previous_wire@[w] == u32::MAX
            } by {
                starts.membership(WireId(w as usize));
                let i = starts.ordered().index_of(WireId(w as usize));
                assert(space.seed(starts.ordered()[i]));
            }
            assert forall|w: int|
                0 <= w < self.seen@.len() && w != -1 && self.reached(w) implies #[trigger] self.handled(
                space,
                w,
            ) by {
                assert(self.pending(*query, w));
            }
        }
    }

    /// Whether the search can enter its space from a tree wire in at most one hop.
    fn can_enter(
        &self,
        query: &RouteQuery<'_>,
        start: WireId,
        corridor: Option<RoutingCorridor>,
        Ghost(space): Ghost<SearchSpace<'_>>,
    ) -> (result: bool)
        requires
            query.wf(),
            space.query == *query,
            space.corridor == corridor,
            space.starts.contains(start),
            start.0 < query.graph.device.wires@.len(),
        ensures
            result == space.seed(start),
    {
        match corridor {
            None => true,
            Some(bounds) => borders_corridor(query, start, bounds, Ghost(space)),
        }
    }

    /// Frontier entry of a wire under one label.
    fn frontier_entry(&self, query: &RouteQuery<'_>, wire: WireId, distance: u32, arrival_ps: u32) -> (result:
        RouteQueueEntry)
        requires
            query.wf(),
            wire.0 < query.graph.device.wires@.len(),
        ensures
            result.distance == distance,
            result.arrival_ps == arrival_ps,
            result.wire == wire.0,
            result.estimate == self.whole_estimate(*query, distance as int, wire.0 as int),
    {
        let follow = match query.hard_occupancy {
            Some(occupancy) => occupancy.use_estimate,
            None => true,
        };
        let estimate: u64 = if follow {
            (distance as u64).saturating_add(
                self.remaining_cost_estimate(
                    query.metadata.wire_points[wire.0],
                    query.metadata.wire_points[query.goal.0],
                    query.criticality,
                    query.delay_quantum_ps,
                ),
            )
        } else {
            distance as u64
        };
        RouteQueueEntry {
            estimate: saturating_u32(estimate),
            distance,
            arrival_ps,
            wire: compact_route_index(wire.0),
        }
    }

    /// Follows one hop of the wire under expansion, if the space allows it.
    fn relax_hop(
        &mut self,
        query: &RouteQuery<'_>,
        wire: WireId,
        index: usize,
        corridor: Option<RoutingCorridor>,
        blockers: &mut HardRoutingBlockers,
        Ghost(space): Ghost<SearchSpace<'_>>,
    )
        requires
            old(self).sound(space),
            old(self).seeded(space),
            old(self).covered(space, wire.0 as int),
            space.query == *query,
            space.corridor == corridor,
            wire.0 < query.graph.device.wires@.len(),
            old(self).reached(wire.0 as int),
            index < query.graph.device.neighbors@[wire.0 as int]@.len(),
            old(self).hops_done(space, wire.0 as int, index as int),
            old(blockers).wf(),
        ensures
            final(self).sound(space),
            final(self).seeded(space),
            final(self).covered(space, wire.0 as int),
            final(self).epoch == old(self).epoch,
            final(self).reached(wire.0 as int),
            final(self).distance@[wire.0 as int] == old(self).distance@[wire.0 as int],
            final(self).arrival_ps@[wire.0 as int] == old(self).arrival_ps@[wire.0 as int],
            final(self).hops_done(space, wire.0 as int, index + 1),
            final(self).same_settings(old(self)),
            final(self).seen@.len() == old(self).seen@.len(),
            final(self).potential(old(self).seen@.len() as int) < old(self).potential(
                old(self).seen@.len() as int,
            ) || *final(self) == *old(self),
            final(self).point() == old(self).relaxed(space, wire, old(self).point(), index as int),
            final(blockers).wf(),
            blockers_grow(*query, *old(blockers), *final(blockers)),
            space.meets_hop(wire, index as int, final(blockers).met()),
    {
        let ghost here = wire.0 as int;
        let hop = query.graph.device.neighbors[wire.0][index];
        let neighbor = hop.0;
        let pip = hop.1;
        proof {
            query.graph.device.lemma_hop(wire, index as int);
            assert(WireId(here as usize) == wire);
            assert forall|k: int| 0 <= k < index + 1 && k != index implies #[trigger] self.hop_done(
                space,
                here,
                k,
            ) by {}
        }
        if pip_is_blocked(query.blocked_pip_words, pip) {
            assert(self.hop_done(space, here, index as int));
            return ;
        }
        if self.start_mark[neighbor.0] == self.epoch {
            assert(WireId((neighbor.0 as int) as usize) == neighbor);
            assert(self.hop_done(space, here, index as int));
            return ;
        }
        if let Some(bounds) = corridor {
            if !point_inside_corridor(query.metadata.wire_points[neighbor.0], bounds) {
                assert(self.hop_done(space, here, index as int));
                return ;
            }
        }
        if let Some(occupancy) = query.hard_occupancy {
            let wire_blocked = occupancy.wires[neighbor.0]
                >= query.metadata.wire_capacities[neighbor.0];
            let pip_blocked = occupancy.pips[pip.0] >= query.metadata.pip_capacities[pip.0];
            if wire_blocked || pip_blocked {
                if wire_blocked {
                    blockers.wires.insert(neighbor);
                }
                if pip_blocked {
                    blockers.pips.insert(pip);
                }
                assert(self.hop_done(space, here, index as int));
                return ;
            }
        }
        assert(space.hop(wire, pip, neighbor));
        let distance: u64 = self.distance[wire.0] as u64;
        let arrival_ps: u64 = self.arrival_ps[wire.0] as u64;
        let congestion: u64 = query.wire_congestion[neighbor.0] as u64
            + query.pip_congestion[pip.0] as u64;
        let pip_delay_ps: u32 = match query.costs {
            Some(costs) => costs.pip_delays_ps[pip.0],
            None => 0,
        };
        let next_arrival_ps: u64 = arrival_ps + pip_delay_ps as u64;
        let step: u64 = if query.delay_quantum_ps == ROUTING_DELAY_QUANTUM_PS {
            routing_step_cost(pip_delay_ps, query.criticality, congestion, query.delay_quantum_ps)
        } else {
            routing_transition_cost(
                arrival_ps,
                next_arrival_ps,
                query.criticality,
                congestion,
                query.delay_quantum_ps,
            )
        };
        let next_distance: u32 = saturating_u32(distance.saturating_add(step));
        let next_arrival: u32 = saturating_u32(next_arrival_ps);
        proof {
            let known = self.labels()[wire];
            assert(known == self.label_of(here));
            let label = self.next_label(space, wire, known, pip, neighbor);
            assert(label.distance == next_distance);
            assert(label.arrival_ps == next_arrival);
        }
        if self.seen[neighbor.0] == self.epoch && (self.distance[neighbor.0] < next_distance || (
        self.distance[neighbor.0] == next_distance && self.arrival_ps[neighbor.0]
            <= next_arrival)) {
            assert(self.hop_done(space, here, index as int));
            return ;
        }
        assert(neighbor != wire);
        let entry = self.frontier_entry(query, neighbor, next_distance, next_arrival);
        let ghost before = *self;
        self.seen.set(neighbor.0, self.epoch);
        self.distance.set(neighbor.0, next_distance);
        self.arrival_ps.set(neighbor.0, next_arrival);
        self.previous_wire.set(neighbor.0, compact_route_index(wire.0));
        self.previous_pip.set(neighbor.0, compact_route_index(pip.0));
        self.queue.push(entry);
        proof {
            let to = neighbor.0 as int;
            assert(WireId(to as usize) == neighbor);
            assert(self.entry_of(*query, to) == entry);
            let label = before.next_label(space, wire, before.labels()[wire], pip, neighbor);
            assert(self.label_of(to) == label);
            assert(self.labels() =~= before.labels().insert(neighbor, label));
            assert(self.point() == before.reach(space, before.point(), neighbor, label));
            Self::lemma_relaxed(before, *self, space, here, pip, to, here);
            Self::lemma_hops_kept(before, *self, space, here, to, index as int);
            assert(self.hop_done(space, here, index as int));
            assert forall|k: int| 0 <= k < index + 1 implies #[trigger] self.hop_done(
                space,
                here,
                k,
            ) by {}
        }
    }

    /// Route of a reached wire, from the wire back to the tree.
    fn trace_back(&self, query: &RouteQuery<'_>, Ghost(space): Ghost<SearchSpace<'_>>) -> (result: (
        Vec<WireId>,
        Vec<PipId>,
    ))
        requires
            self.sound(space),
            space.query == *query,
            self.reached(query.goal.0 as int),
        ensures
            space.is_walk(result.0@.reverse(), result.1@.reverse()),
            result.0@[0] == query.goal,
            result.0@.no_duplicates(),
            leads_back(self.labels(), result.0@, result.1@),
            query.has_fixed_costs() ==> space.walk_cost(
                result.0@.reverse(),
                result.1@.reverse(),
                result.1@.len() as int,
            ) <= self.distance@[query.goal.0 as int],
    {
        let goal = query.goal;
        let mut wires: Vec<WireId> = Vec::new();
        wires.push(goal);
        let mut pips: Vec<PipId> = Vec::new();
        let mut cursor: usize = goal.0;
        assert(self.anchored(goal.0 as int));
        let ghost depth = choose|depth: nat| depth_is(self.previous_wire@, goal.0 as int, depth);
        while self.previous_wire[cursor] != u32::MAX
            invariant
                self.sound(space),
                space.query == *query,
                cursor < self.seen@.len(),
                self.reached(cursor as int),
                wires@.len() == pips@.len() + 1,
                wires@.last() == WireId(cursor),
                wires@[0] == goal,
                goal == query.goal,
                pips@.len() <= depth,
                forall|i: int|
                    0 <= i < wires@.len() ==> depth_is(
                        self.previous_wire@,
                        (#[trigger] wires@[i]).0 as int,
                        (depth - i) as nat,
                    ),
                forall|i: int|
                    0 <= i < pips@.len() ==> {
                        let to = (#[trigger] wires@[i]).0 as int;
                        &&& to < self.seen@.len()
                        &&& self.reached(to)
                        &&& self.previous_wire@[to] != u32::MAX
                        &&& wires@[i + 1].0 == self.previous_wire@[to]
                        &&& pips@[i].0 == self.previous_pip@[to]
                    },
            decreases depth - pips@.len(),
        {
            proof {
                assert(depth_is(
                    self.previous_wire@,
                    wires@[wires@.len() - 1].0 as int,
                    (depth - (wires@.len() - 1)) as nat,
                ));
                assert(self.linked(space, cursor as int));
            }
            pips.push(PipId(self.previous_pip[cursor] as usize));
            cursor = self.previous_wire[cursor] as usize;
            wires.push(WireId(cursor));
        }
        proof {
            let forward = wires@.reverse();
            let hops = pips@.reverse();
            let last = pips@.len() as int;
            assert(wires@[last] == WireId(cursor));
            assert(self.linked(space, cursor as int));
            assert(forward[0] == WireId(cursor));
            assert forall|i: int| 0 <= i < wires@.len() implies self.labels().contains_key(
                #[trigger] wires@[i],
            ) by {
                if i == last {
                    assert(wires@[i].0 == cursor);
                }
            }
            assert forall|i: int| 0 <= i < pips@.len() implies self.labels()[wires@[i]].previous
                == Some((wires@[i + 1], #[trigger] pips@[i])) by {
                assert(self.labels().contains_key(wires@[i]));
                let to = wires@[i].0 as int;
                assert(self.labels()[wires@[i]] == self.label_of(to));
            }
            assert(self.labels()[wires@.last()] == self.label_of(cursor as int));
            assert(leads_back(self.labels(), wires@, pips@));
            assert forall|i: int| 0 <= i < hops.len() implies space.hop(
                forward[i],
                #[trigger] hops[i],
                forward[i + 1],
            ) && (query.has_fixed_costs() ==> query.relax(
                self.distance@[forward[i].0 as int] as int,
                hops[i],
                forward[i + 1],
            ) <= self.distance@[forward[i + 1].0 as int]) by {
                let k = last - 1 - i;
                let to = wires@[k].0 as int;
                assert(self.linked(space, to));
                assert(WireId(to as usize) == wires@[k]);
                assert(forward[i + 1] == wires@[k]);
                assert(forward[i] == wires@[k + 1]);
                assert(hops[i] == pips@[k]);
                assert(WireId((wires@[k + 1].0 as int) as usize) == wires@[k + 1]);
            }
            assert forall|a: int, b: int|
                0 <= a < wires@.len() && 0 <= b < wires@.len() && a != b implies wires@[a]
                != wires@[b] by {
                if wires@[a] == wires@[b] {
                    lemma_depth_unique(
                        self.previous_wire@,
                        wires@[a].0 as int,
                        (depth - a) as nat,
                        (depth - b) as nat,
                    );
                }
            }
            if query.has_fixed_costs() {
                self.lemma_trace_cost(space, forward, hops, last);
                assert(forward[last] == goal);
            }
        }
        (wires, pips)
    }

    /// The cost of a traced route is at most the label of each of its wires.
    proof fn lemma_trace_cost(
        &self,
        space: SearchSpace<'_>,
        wires: Seq<WireId>,
        pips: Seq<PipId>,
        index: int,
    )
        requires
            wires.len() == pips.len() + 1,
            0 <= index <= pips.len(),
            self.distance@[wires[0].0 as int] == space.query.start_cost(wires[0]),
            forall|i: int|
                0 <= i < pips.len() ==> space.query.relax(
                    self.distance@[wires[i].0 as int] as int,
                    #[trigger] pips[i],
                    wires[i + 1],
                ) <= self.distance@[wires[i + 1].0 as int],
        ensures
            space.walk_cost(wires, pips, index) <= self.distance@[wires[index].0 as int],
        decreases index,
    {
        if index > 0 {
            self.lemma_trace_cost(space, wires, pips, index - 1);
            space.query.lemma_relax_monotone(
                space.walk_cost(wires, pips, index - 1),
                self.distance@[wires[index - 1].0 as int] as int,
                pips[index - 1],
                wires[index],
            );
        }
    }

    /// The route is one of the space and ends at the goal; where hop costs are
    /// fixed, every other such route passes a wire at which it looked no better
    /// than the given route looks as a whole.
    pub open spec fn best_walk(
        &self,
        space: SearchSpace<'_>,
        wires: Seq<WireId>,
        pips: Seq<PipId>,
    ) -> bool {
        let query = space.query;
        let goal = query.goal.0 as int;
        &&& space.is_walk(wires, pips)
        &&& wires.last() == query.goal
        &&& wires.no_duplicates()
        &&& query.has_fixed_costs() ==> forall|other: Seq<WireId>, other_pips: Seq<PipId>|
            #![trigger space.is_walk(other, other_pips)]
            space.is_walk(other, other_pips) && other.last() == query.goal ==> exists|i: int|
                0 <= i < other.len() && self.whole_estimate(
                    query,
                    space.walk_cost(wires, pips, pips.len() as int),
                    goal,
                ) <= self.whole_estimate(
                    query,
                    #[trigger] space.walk_cost(other, other_pips, i),
                    other[i].0 as int,
                )
    }

    /// Searches one space for the goal: fails exactly where no route of the
    /// space leads to it.
    pub fn shortest_path_attempt(
        &mut self,
        query: &RouteQuery<'_>,
        starts: &OrderedSet<WireId>,
        avoid: Option<&OrderedSet<WireId>>,
        blockers: &mut HardRoutingBlockers,
        corridor: Option<RoutingCorridor>,
    ) -> (result: Option<(Vec<WireId>, Vec<PipId>)>)
        requires
            old(self).wf(query.graph.device.wires@.len() as int),
            query.wf(),
            starts_fit(starts, avoid, query.graph.device.wires@.len() as int),
            forall|w: WireId| #[trigger] starts@.contains(w) ==> w.0 < query.tree_delays_ps@.len(),
            old(blockers).wf(),
        ensures
            final(self).wf(query.graph.device.wires@.len() as int),
            final(self).same_settings(old(self)),
            final(blockers).wf(),
            blockers_grow(*query, *old(blockers), *final(blockers)),
            old(self).searches(
                space_of(*query, starts, avoid, corridor),
                starts.ordered(),
                result,
                final(blockers).met(),
            ),
            match result {
                Some(path) => old(self).best_walk(
                    space_of(*query, starts, avoid, corridor),
                    path.0@.reverse(),
                    path.1@.reverse(),
                ),
                None => forall|wires: Seq<WireId>, pips: Seq<PipId>|
                    #![trigger space_of(*query, starts, avoid, corridor).is_walk(wires, pips)]
                    space_of(*query, starts, avoid, corridor).is_walk(wires, pips) ==> wires.last()
                        != query.goal,
            },
    {
        broadcast use vstd::multiset::group_multiset_axioms;

        let ghost space = space_of(*query, starts, avoid, corridor);
        let ghost count = query.graph.device.wires@.len() as int;
        self.begin(starts, avoid);
        let ghost opened = *self;
        self.seed_starts(query, starts, corridor, Ghost(space));
        let ghost list = starts.ordered();
        let ghost mut points: Seq<SearchPoint> = seq![self.point()];
        let ghost mut entries: Seq<RouteQueueEntry> = Seq::empty();
        proof {
            opened.lemma_same_sown(old(self), space, list, list.len() as int);
        }
        loop
            invariant
                self.sound(space),
                old(self).is_course(space, list, points, entries),
                points.last() == self.point(),
                list == starts.ordered(),
                self.seeded(space),
                self.covered(space, -1),
                self.same_settings(old(self)),
                space == space_of(*query, starts, avoid, corridor),
                space.query == *query,
                space.corridor == corridor,
                count == query.graph.device.wires@.len(),
                forall|w: WireId| #[trigger] starts@.contains(w) ==> w.0 < count,
                space.starts == starts@,
                blockers.wf(),
                blockers_grow(*query, *old(blockers), *blockers),
                old(self).meets_all(space, points, entries, blockers.met()),
            decreases self.potential(count), self.queue@.len(),
        {
            let ghost at_pop = *self;
            match self.queue.pop() {
                None => {
                    proof {
                        let none: Option<(Vec<WireId>, Vec<PipId>)> = None;
                        assert(old(self).is_end(space, points.last(), none));
                        assert(old(self).is_course(space, list, points, entries));
                        assert forall|wires: Seq<WireId>, pips: Seq<PipId>|
                            #![trigger space.is_walk(wires, pips)]
                            space.is_walk(wires, pips) implies wires.last() != query.goal by {
                            at_pop.lemma_walk_is_reached(space, wires, pips, wires.len() - 1);
                        }
                    }
                    assert(self.wf(count));
                    return None;
                },
                Some(entry) => {
                    let wire = WireId(entry.wire as usize);
                    let ghost here = wire.0 as int;
                    proof {
                        assert(at_pop.queue@.contains(entry));
                        at_pop.lemma_popped(*self, space, entry);
                        at_pop.lemma_taken(*self, space, entry);
                        at_pop.lemma_same_potential(*self, count);
                        assert(self.labels() =~= at_pop.labels());
                        assert(comes_first(at_pop.point().queue, entry));
                    }
                    let ghost rest = self.point();
                    if self.seen[wire.0] != self.epoch || self.distance[wire.0] != entry.distance
                        || self.arrival_ps[wire.0] != entry.arrival_ps {
                        proof {
                            assert(!old(self).is_current(at_pop.point(), entry));
                            old(self).lemma_course_grows(
                                space,
                                list,
                                points,
                                entries,
                                entry,
                                rest,
                            );
                            old(self).lemma_met_step(
                                space,
                                points,
                                entries,
                                entry,
                                rest,
                                blockers.met(),
                            );
                            points = points.push(rest);
                            entries = entries.push(entry);
                        }
                        if self.seen[wire.0] != self.epoch {
                            proof {
                                assert forall|w: int|
                                    0 <= w < self.seen@.len() && w != -1 && self.reached(
                                        w,
                                    ) implies #[trigger] self.handled(space, w) by {
                                    assert(w != here);
                                }
                            }
                        }
                        continue ;
                    }
                    assert(old(self).is_current(at_pop.point(), entry)) by {
                        assert(at_pop.labels().contains_key(wire));
                        assert(at_pop.labels()[wire] == at_pop.label_of(here));
                    }
                    if wire == query.goal {
                        let path = self.trace_back(query, Ghost(space));
                        proof {
                            assert(comes_first(at_pop.point().queue, entry));
                            assert(old(self).is_end(space, points.last(), Some(path)));
                            assert(old(self).is_course(space, list, points, entries));
                            let forward = path.0@.reverse();
                            let hops = path.1@.reverse();
                            assert(forward.last() == path.0@[0]);
                            assert forall|a: int, b: int|
                                0 <= a < forward.len() && 0 <= b < forward.len() && a
                                    != b implies forward[a] != forward[b] by {
                                let x = forward.len() - 1 - a;
                                let y = forward.len() - 1 - b;
                                assert(path.0@[x] != path.0@[y]);
                            }
                            if query.has_fixed_costs() {
                                assert forall|other: Seq<WireId>, other_pips: Seq<PipId>|
                                    #![trigger space.is_walk(other, other_pips)]
                                    space.is_walk(other, other_pips) && other.last()
                                        == query.goal implies exists|i: int|
                                    0 <= i < other.len() && old(self).whole_estimate(
                                        *query,
                                        space.walk_cost(forward, hops, hops.len() as int),
                                        query.goal.0 as int,
                                    ) <= old(self).whole_estimate(
                                        *query,
                                        #[trigger] space.walk_cost(other, other_pips, i),
                                        other[i].0 as int,
                                    ) by {
                                    assert(WireId((other[0].0 as int) as usize) == other[0]);
                                    assert(space.seed(other[0]));
                                    assert(at_pop.reached(other[0].0 as int));
                                    assert(at_pop.linked(space, other[0].0 as int));
                                    let witness = at_pop.lemma_walk_is_no_better(
                                        space,
                                        other,
                                        other_pips,
                                        0,
                                    );
                                    assert(space.walk_cost(other, other_pips, witness)
                                        == space.walk_cost(other, other_pips, witness));
                                }
                            }
                        }
                        return Some(path);
                    }
                    let hops: usize = query.graph.device.neighbors[wire.0].len();
                    let mut index: usize = 0;
                    let ghost popped = *self;
                    proof {
                        assert(popped.queue@.len() < at_pop.queue@.len());
                    }
                    while index < hops
                        invariant
                            index <= hops,
                            hops == query.graph.device.neighbors@[here]@.len(),
                            here == wire.0,
                            wire.0 < count,
                            self.sound(space),
                            self.seeded(space),
                            self.covered(space, here),
                            self.same_settings(old(self)),
                            space.query == *query,
                            space.corridor == corridor,
                            count == query.graph.device.wires@.len(),
                            self.seen@.len() == count,
                            self.reached(here),
                            self.hops_done(space, here, index as int),
                            blockers.wf(),
                            blockers_grow(*query, *old(blockers), *blockers),
                            old(self).meets_all(space, points, entries, blockers.met()),
                            space.meets_first(wire, index as int, blockers.met()),
                            self.potential(count) < popped.potential(count) || *self == popped,
                            self.point() == old(self).unfolded(space, wire, rest, index as int),
                        decreases hops - index,
                    {
                        let ghost earlier = *self;
                        let ghost known = blockers.met();
                        self.relax_hop(query, wire, index, corridor, blockers, Ghost(space));
                        proof {
                            old(self).lemma_met_more(
                                space,
                                points,
                                entries,
                                known,
                                blockers.met(),
                            );
                            space.lemma_meets_more(wire, index as int, known, blockers.met());
                            earlier.lemma_same_relaxed(
                                old(self),
                                space,
                                wire,
                                earlier.point(),
                                index as int,
                            );
                        }
                        index = index + 1;
                    }
                    proof {
                        old(self).lemma_course_grows(
                            space,
                            list,
                            points,
                            entries,
                            entry,
                            self.point(),
                        );
                        old(self).lemma_met_step(
                            space,
                            points,
                            entries,
                            entry,
                            self.point(),
                            blockers.met(),
                        );
                        points = points.push(self.point());
                        entries = entries.push(entry);
                        assert(self.expanded(space, here));
                        assert forall|w: int|
                            0 <= w < self.seen@.len() && w != -1 && self.reached(w) implies
                        #[trigger] self.handled(space, w) by {
                            if w == here {
                                assert(self.expanded(space, w));
                            }
                        }
                    }
                },
            }
        }
    }

    /// The estimate coefficients are those of another state.
    pub open spec fn same_estimates(&self, other: &RouteSearch) -> bool {
        &&& self.estimate_base_delay_ps == other.estimate_base_delay_ps
        &&& self.estimate_delay_per_tile_ps == other.estimate_delay_per_tile_ps
    }

    /// The estimate coefficients and the counters are those of another state.
    pub open spec fn same_settings(&self, other: &RouteSearch) -> bool {
        &&& self.estimate_base_delay_ps == other.estimate_base_delay_ps
        &&& self.estimate_delay_per_tile_ps == other.estimate_delay_per_tile_ps
        &&& self.alternate_source_attempts == other.alternate_source_attempts
        &&& self.alternate_source_improvements == other.alternate_source_improvements
    }
}

/// Every wire of the tree and every avoided wire is on the device.
pub open spec fn starts_fit(
    starts: &OrderedSet<WireId>,
    avoid: Option<&OrderedSet<WireId>>,
    wire_count: int,
) -> bool {
    &&& starts.wf()
    &&& forall|w: WireId| #[trigger] starts@.contains(w) ==> w.0 < wire_count
    &&& avoid matches Some(wires) ==> wires.wf() && forall|w: WireId| #[trigger]
        wires@.contains(w) ==> w.0 < wire_count
}

/// The space of a search over the whole device or over one corridor.
pub open spec fn space_of<'a>(
    query: RouteQuery<'a>,
    starts: &OrderedSet<WireId>,
    avoid: Option<&OrderedSet<WireId>>,
    corridor: Option<RoutingCorridor>,
) -> SearchSpace<'a> {
    SearchSpace {
        query,
        starts: starts@,
        closed_wires: closed_wires(starts, avoid),
        corridor,
    }
}

/// Recording a pruned resource keeps what was recorded and adds saturated resources alone.
pub open spec fn blockers_grow(
    query: RouteQuery<'_>,
    before: HardRoutingBlockers,
    after: HardRoutingBlockers,
) -> bool {
    &&& before.wires@.subset_of(after.wires@)
    &&& before.pips@.subset_of(after.pips@)
    &&& forall|w: WireId| #[trigger]
        after.wires@.contains(w) ==> before.wires@.contains(w) || (w.0
            < query.graph.device.wires@.len() && !query.wire_free(w))
    &&& forall|p: PipId| #[trigger]
        after.pips@.contains(p) ==> before.pips@.contains(p) || (p.0
            < query.graph.device.pips@.len() && !query.pip_free(p))
}

/// Wires that a route may not enter: the tree and the avoided wires.
pub open spec fn closed_wires(
    starts: &OrderedSet<WireId>,
    avoid: Option<&OrderedSet<WireId>>,
) -> Set<WireId> {
    match avoid {
        Some(wires) => wires@.union(starts@),
        None => starts@,
    }
}

/// Whether a tree wire lies in the corridor or one hop away from it.
pub(crate) fn borders_corridor(
    query: &RouteQuery<'_>,
    start: WireId,
    corridor: RoutingCorridor,
    Ghost(space): Ghost<SearchSpace<'_>>,
) -> (result: bool)
    requires
        query.wf(),
        space.query == *query,
        space.corridor == Some(corridor),
        space.starts.contains(start),
        start.0 < query.graph.device.wires@.len(),
    ensures
        result == space.seed(start),
{
    if point_inside_corridor(query.metadata.wire_points[start.0], corridor) {
        return true;
    }
    let hops = &query.graph.device.neighbors[start.0];
    let mut index: usize = 0;
    while index < hops.len()
        invariant
            index <= hops@.len(),
            query.wf(),
            space.query == *query,
            space.corridor == Some(corridor),
            space.starts.contains(start),
            start.0 < query.graph.device.wires@.len(),
            hops@ == query.graph.device.neighbors@[start.0 as int]@,
            forall|k: int| 0 <= k < index ==> !space.contains((#[trigger] hops@[k]).0),
        decreases hops@.len() - index,
    {
        proof {
            query.graph.device.lemma_hop(start, index as int);
        }
        let neighbor = hops[index].0;
        if point_inside_corridor(query.metadata.wire_points[neighbor.0], corridor) {
            assert(space.contains(hops@[index as int].0));
            return true;
        }
        index = index + 1;
    }
    false
}

} // verus!
