//! Boxes of all nets of a placement, and what a trial move changes in them.

use vstd::prelude::*;

use crate::bbox::{
    can_leave, count_of, counted, predicted_box_is_exact, remaining, DetailedCoordinateDelta,
    DetailedCoordinateMultiset, DetailedNetBoundingBox, DetailedNetBoundingBoxDelta,
};
use crate::device::{Device, UnifiedGraph};
use crate::model::{BelId, CellId, Design, NetId, ResourceKind};
use crate::net_span::{
    along, coordinates, endpoints, hits, is_clock_net, lemma_axes_match, lemma_endpoints,
    lemma_hits_bounded, lemma_occurrences_bounded, lemma_slot_changes, net_cells, net_span,
    occurrences, Axis,
};
use crate::ordered::{OrderedKey, OrderedMap};
use crate::row_cost::{bel_point, placed_on_device};
use crate::usage_model::{cells_in_range, with_row};

verus! {

/// How often the net is listed.
pub open spec fn times(list: Map<NetId, usize>, net: NetId) -> int {
    if list.contains_key(net) {
        list[net] as int
    } else {
        0
    }
}

/// The list says how often the cell is an endpoint of each net.
pub open spec fn lists_nets(
    design: &Design,
    cell: CellId,
    list: OrderedMap<NetId, usize>,
) -> bool {
    &&& list.wf()
    &&& forall|n: NetId| #[trigger]
        list@.contains_key(n) ==> n.0 < design.nets@.len() && list@[n] > 0
    &&& forall|n: NetId|
        n.0 < design.nets@.len() ==> #[trigger] times(list@, n) == occurrences(
            endpoints(design, n.0 as int),
            cell,
        )
}

/// The counts are those of one axis of a net's endpoints.
pub open spec fn counts_axis(
    cells: Seq<CellId>,
    device: &Device,
    placed: Seq<Option<BelId>>,
    axis: Axis,
    axis_counts: DetailedCoordinateMultiset,
) -> bool {
    &&& axis_counts.wf()
    &&& forall|c: u32| #[trigger]
        count_of(axis_counts.counts@, c) == hits(cells, device, placed, axis, c)
}

/// The box is that of a net's endpoints.
pub open spec fn boxes_net(
    graph: UnifiedGraph<'_>,
    placed: Seq<Option<BelId>>,
    net: int,
    net_box: DetailedNetBoundingBox,
) -> bool {
    let cells = endpoints(graph.design, net);
    &&& counts_axis(cells, graph.device, placed, Axis::Column, net_box.x)
    &&& counts_axis(cells, graph.device, placed, Axis::Row, net_box.y)
}

/// The delta leads from the hits of one placement to those of another.
pub open spec fn axis_leads(
    cells: Seq<CellId>,
    device: &Device,
    before: Seq<Option<BelId>>,
    lifted: Seq<Option<BelId>>,
    after: Seq<Option<BelId>>,
    axis: Axis,
    delta: DetailedCoordinateDelta,
) -> bool {
    &&& delta.wf()
    &&& forall|c: u32| #[trigger]
        count_of(delta.removals@, c) == hits(cells, device, before, axis, c) - hits(
            cells,
            device,
            lifted,
            axis,
            c,
        )
    &&& forall|c: u32| #[trigger]
        count_of(delta.additions@, c) == hits(cells, device, after, axis, c) - hits(
            cells,
            device,
            lifted,
            axis,
            c,
        )
    &&& forall|c: u32| #[trigger] delta.removals@.contains_key(c) ==> delta.removals@[c] > 0
    &&& forall|c: u32| #[trigger] delta.additions@.contains_key(c) ==> delta.additions@[c] > 0
}

/// The delta leads from one placement of a net to another.
pub open spec fn net_leads(
    graph: UnifiedGraph<'_>,
    before: Seq<Option<BelId>>,
    lifted: Seq<Option<BelId>>,
    after: Seq<Option<BelId>>,
    net: int,
    delta: DetailedNetBoundingBoxDelta,
) -> bool {
    let cells = endpoints(graph.design, net);
    &&& axis_leads(cells, graph.device, before, lifted, after, Axis::Column, delta.x)
    &&& axis_leads(cells, graph.device, before, lifted, after, Axis::Row, delta.y)
}

/// Deltas of the nets that a trial move touches.
pub struct DetailedBoundingBoxDeltaWorkspace {
    /// Delta of each net.
    pub deltas: Vec<DetailedNetBoundingBoxDelta>,
    /// Nets that are touched.
    pub touched: Vec<NetId>,
    /// Whether each net is touched.
    pub active: Vec<bool>,
}

impl DetailedBoundingBoxDeltaWorkspace {
    /// Nets are marked where they are touched, and the others have no delta.
    pub open spec fn wf(&self, nets: int) -> bool {
        &&& self.deltas@.len() == nets
        &&& self.active@.len() == nets
        &&& self.touched@.no_duplicates()
        &&& forall|i: int|
            0 <= i < self.touched@.len() ==> (#[trigger] self.touched@[i]).0 < nets
                && self.active@[self.touched@[i].0 as int]
        &&& forall|n: NetId|
            n.0 < nets && self.active@[n.0 as int] ==> #[trigger] self.touched@.contains(n)
        &&& forall|n: int| 0 <= n < nets ==> (#[trigger] self.deltas@[n]).wf()
        &&& forall|n: int|
            0 <= n < nets && !self.active@[n] ==> (#[trigger] self.deltas@[n]).is_clear()
    }

    /// No net is touched.
    pub open spec fn is_clear(&self) -> bool {
        &&& self.touched@.len() == 0
        &&& forall|n: int| 0 <= n < self.active@.len() ==> !#[trigger] self.active@[n]
    }

    /// The deltas lead from one placement to the other.
    pub open spec fn leads(
        &self,
        graph: UnifiedGraph<'_>,
        before: Seq<Option<BelId>>,
        lifted: Seq<Option<BelId>>,
        after: Seq<Option<BelId>>,
    ) -> bool {
        forall|n: int|
            0 <= n < graph.design.nets@.len() ==> net_leads(
                graph,
                before,
                lifted,
                after,
                n,
                #[trigger] self.deltas@[n],
            )
    }

    /// A workspace for so many nets.
    pub fn new(net_count: usize) -> (result: Self)
        ensures
            result.wf(net_count as int),
            result.is_clear(),
    {
        let mut deltas: Vec<DetailedNetBoundingBoxDelta> = Vec::new();
        let mut active: Vec<bool> = Vec::new();
        let mut index: usize = 0;
        while index < net_count
            invariant
                index <= net_count,
                deltas@.len() == index,
                active@.len() == index,
                forall|n: int|
                    0 <= n < index ==> (#[trigger] deltas@[n]).wf() && deltas@[n].is_clear(),
                forall|n: int| 0 <= n < index ==> !#[trigger] active@[n],
            decreases net_count - index,
        {
            deltas.push(DetailedNetBoundingBoxDelta::new());
            active.push(false);
            index = index + 1;
        }
        DetailedBoundingBoxDeltaWorkspace { deltas, touched: Vec::new(), active }
    }

    /// Forgets what was touched.
    pub fn clear(&mut self, Ghost(nets): Ghost<int>)
        requires
            old(self).wf(nets),
        ensures
            final(self).wf(nets),
            final(self).is_clear(),
    {
        while self.touched.len() > 0
            invariant
                self.wf(nets),
            decreases self.touched@.len(),
        {
            let ghost before = *self;
            let last: usize = self.touched.len() - 1;
            let net = self.touched[last];
            assert(self.touched@[last as int].0 < nets);
            self.touched.pop();
            self.deltas[net.0].clear();
            self.active.set(net.0, false);
            proof {
                assert forall|i: int| 0 <= i < self.touched@.len() implies (
                #[trigger] self.touched@[i]).0 < nets && self.active@[self.touched@[i].0 as int] by {
                    assert(self.touched@[i] == before.touched@[i]);
                    assert(before.touched@[i] != before.touched@[last as int]);
                }
                assert forall|n: NetId|
                    n.0 < nets && self.active@[n.0 as int] implies #[trigger] self.touched@.contains(
                    n,
                ) by {
                    assert(before.active@[n.0 as int]);
                    assert(before.touched@.contains(n));
                    let k = before.touched@.index_of(n);
                    assert(k < last);
                    assert(self.touched@[k] == n);
                }
                assert forall|n: int| 0 <= n < nets implies (#[trigger] self.deltas@[n]).wf() by {
                    if n != net.0 {
                        assert(before.deltas@[n].wf());
                    }
                }
                assert forall|n: int| 0 <= n < nets && !self.active@[n] implies (
                #[trigger] self.deltas@[n]).is_clear() by {
                    if n != net.0 {
                        assert(before.deltas@[n].is_clear());
                    }
                }
            }
        }
        proof {
            assert forall|n: int| 0 <= n < self.active@.len() implies !#[trigger] self.active@[n] by {
                if self.active@[n] {
                    assert(self.active.len() == self.active@.len());
                    assert(self.touched@.contains(NetId(n as usize)));
                }
            }
        }
    }

    /// Marks the net as touched.
    fn touch(&mut self, net: NetId, Ghost(nets): Ghost<int>)
        requires
            old(self).wf(nets),
            net.0 < nets,
        ensures
            final(self).wf(nets),
            final(self).active@[net.0 as int],
            final(self).deltas == old(self).deltas,
    {
        if !self.active[net.0] {
            let ghost before = *self;
            self.active.set(net.0, true);
            self.touched.push(net);
            proof {
                assert forall|i: int| 0 <= i < self.touched@.len() implies (
                #[trigger] self.touched@[i]).0 < nets && self.active@[self.touched@[i].0 as int] by {
                    if i < before.touched@.len() {
                        assert(before.active@[before.touched@[i].0 as int]);
                    }
                }
                assert forall|n: NetId|
                    n.0 < nets && self.active@[n.0 as int] implies #[trigger] self.touched@.contains(
                    n,
                ) by {
                    if n == net {
                        assert(self.touched@[before.touched@.len() as int] == n);
                    } else {
                        assert(before.touched@.contains(n));
                        let k = before.touched@.index_of(n);
                        assert(self.touched@[k] == n);
                    }
                }
                assert(self.touched@.no_duplicates()) by {
                    assert forall|i: int, j: int|
                        0 <= i < self.touched@.len() && 0 <= j < self.touched@.len() && i
                            != j implies self.touched@[i] != self.touched@[j] by {
                        if i < before.touched@.len() {
                            assert(before.active@[before.touched@[i].0 as int]);
                        }
                        if j < before.touched@.len() {
                            assert(before.active@[before.touched@[j].0 as int]);
                        }
                    }
                }
            }
        }
    }
}

/// A delta that moves endpoints from one tile to another still leads on.
proof fn lemma_axis_step(
    cells: Seq<CellId>,
    device: &Device,
    before: Seq<Option<BelId>>,
    lifted: Seq<Option<BelId>>,
    after: Seq<Option<BelId>>,
    axis: Axis,
    delta: DetailedCoordinateDelta,
    later: DetailedCoordinateDelta,
    cell: CellId,
    bel: BelId,
    new_bel: BelId,
)
    requires
        cell.0 < before.len(),
        lifted.len() == before.len(),
        after.len() == before.len(),
        forall|k: int| 0 <= k < cells.len() ==> (#[trigger] cells[k]).0 < before.len(),
        axis_leads(cells, device, before, lifted, after, axis, delta),
        lifted[cell.0 as int] == Some(bel),
        after[cell.0 as int] == Some(bel),
        occurrences(cells, cell) > 0,
        later.wf(),
        later.removals@ == delta.removals@.insert(
            along(bel_point(device, bel), axis),
            (count_of(delta.removals@, along(bel_point(device, bel), axis)) + occurrences(
                cells,
                cell,
            )) as usize,
        ),
        later.additions@ == delta.additions@.insert(
            along(bel_point(device, new_bel), axis),
            (count_of(delta.additions@, along(bel_point(device, new_bel), axis)) + occurrences(
                cells,
                cell,
            )) as usize,
        ),
        count_of(delta.removals@, along(bel_point(device, bel), axis)) + occurrences(cells, cell)
            <= usize::MAX,
        count_of(delta.additions@, along(bel_point(device, new_bel), axis)) + occurrences(
            cells,
            cell,
        ) <= usize::MAX,
    ensures
        axis_leads(
            cells,
            device,
            before,
            lifted.update(cell.0 as int, None),
            after.update(cell.0 as int, Some(new_bel)),
            axis,
            later,
        ),
{
    assert forall|c: u32| #[trigger]
        count_of(later.removals@, c) == hits(cells, device, before, axis, c) - hits(
            cells,
            device,
            lifted.update(cell.0 as int, None),
            axis,
            c,
        ) by {
        lemma_slot_changes(cells, device, lifted, cell, None, axis, c);
        assert(count_of(delta.removals@, c) == hits(cells, device, before, axis, c) - hits(
            cells,
            device,
            lifted,
            axis,
            c,
        ));
    }
    assert forall|c: u32| #[trigger]
        count_of(later.additions@, c) == hits(
            cells,
            device,
            after.update(cell.0 as int, Some(new_bel)),
            axis,
            c,
        ) - hits(cells, device, lifted.update(cell.0 as int, None), axis, c) by {
        lemma_slot_changes(cells, device, lifted, cell, None, axis, c);
        lemma_slot_changes(cells, device, after, cell, Some(new_bel), axis, c);
        assert(count_of(delta.additions@, c) == hits(cells, device, after, axis, c) - hits(
            cells,
            device,
            lifted,
            axis,
            c,
        ));
    }
}

/// Counters of a delta have room for one more cell.
proof fn lemma_axis_room(
    cells: Seq<CellId>,
    device: &Device,
    before: Seq<Option<BelId>>,
    lifted: Seq<Option<BelId>>,
    after: Seq<Option<BelId>>,
    axis: Axis,
    delta: DetailedCoordinateDelta,
    cell: CellId,
    bel: BelId,
    new_bel: BelId,
)
    requires
        cell.0 < before.len(),
        lifted.len() == before.len(),
        after.len() == before.len(),
        cells.len() <= usize::MAX,
        forall|k: int| 0 <= k < cells.len() ==> (#[trigger] cells[k]).0 < before.len(),
        axis_leads(cells, device, before, lifted, after, axis, delta),
        lifted[cell.0 as int] == Some(bel),
        after[cell.0 as int] == Some(bel),
    ensures
        count_of(delta.removals@, along(bel_point(device, bel), axis)) + occurrences(cells, cell)
            <= usize::MAX,
        count_of(delta.additions@, along(bel_point(device, new_bel), axis)) + occurrences(
            cells,
            cell,
        ) <= usize::MAX,
{
    let from = along(bel_point(device, bel), axis);
    let to = along(bel_point(device, new_bel), axis);
    let out = lifted.update(cell.0 as int, None);
    let next = after.update(cell.0 as int, Some(new_bel));
    lemma_slot_changes(cells, device, lifted, cell, None, axis, from);
    lemma_hits_bounded(cells, device, out, axis, from);
    lemma_hits_bounded(cells, device, before, axis, from);
    assert(count_of(delta.removals@, from) == hits(cells, device, before, axis, from) - hits(
        cells,
        device,
        lifted,
        axis,
        from,
    ));
    lemma_slot_changes(cells, device, after, cell, Some(new_bel), axis, to);
    lemma_slot_changes(cells, device, lifted, cell, None, axis, to);
    lemma_hits_bounded(cells, device, next, axis, to);
    lemma_hits_bounded(cells, device, out, axis, to);
    lemma_hits_bounded(cells, device, lifted, axis, to);
    assert(count_of(delta.additions@, to) == hits(cells, device, after, axis, to) - hits(
        cells,
        device,
        lifted,
        axis,
        to,
    ));
}

/// A cell that is no endpoint does not matter, nor does a move within a tile.
proof fn lemma_axis_still(
    cells: Seq<CellId>,
    device: &Device,
    before: Seq<Option<BelId>>,
    lifted: Seq<Option<BelId>>,
    after: Seq<Option<BelId>>,
    axis: Axis,
    delta: DetailedCoordinateDelta,
    cell: CellId,
    out: Option<BelId>,
    new_bel: Option<BelId>,
)
    requires
        cell.0 < before.len(),
        lifted.len() == before.len(),
        after.len() == before.len(),
        forall|k: int| 0 <= k < cells.len() ==> (#[trigger] cells[k]).0 < before.len(),
        axis_leads(cells, device, before, lifted, after, axis, delta),
        occurrences(cells, cell) == 0 || (lifted[cell.0 as int] is Some && out is Some
            && after[cell.0 as int] is Some && new_bel is Some && along(
            bel_point(device, lifted[cell.0 as int]->0),
            axis,
        ) == along(bel_point(device, out->0), axis) && along(
            bel_point(device, after[cell.0 as int]->0),
            axis,
        ) == along(bel_point(device, new_bel->0), axis)),
    ensures
        axis_leads(
            cells,
            device,
            before,
            lifted.update(cell.0 as int, out),
            after.update(cell.0 as int, new_bel),
            axis,
            delta,
        ),
{
    assert forall|c: u32|
        hits(cells, device, lifted.update(cell.0 as int, out), axis, c) == #[trigger] hits(
            cells,
            device,
            lifted,
            axis,
            c,
        ) by {
        lemma_slot_changes(cells, device, lifted, cell, out, axis, c);
    }
    assert forall|c: u32|
        hits(cells, device, after.update(cell.0 as int, new_bel), axis, c) == #[trigger] hits(
            cells,
            device,
            after,
            axis,
            c,
        ) by {
        lemma_slot_changes(cells, device, after, cell, new_bel, axis, c);
    }
    assert forall|c: u32| #[trigger]
        count_of(delta.removals@, c) == hits(cells, device, before, axis, c) - hits(
            cells,
            device,
            lifted.update(cell.0 as int, out),
            axis,
            c,
        ) by {
        assert(hits(cells, device, lifted, axis, c) == hits(
            cells,
            device,
            lifted.update(cell.0 as int, out),
            axis,
            c,
        ));
    }
    assert forall|c: u32| #[trigger]
        count_of(delta.additions@, c) == hits(
            cells,
            device,
            after.update(cell.0 as int, new_bel),
            axis,
            c,
        ) - hits(cells, device, lifted.update(cell.0 as int, out), axis, c) by {
        assert(hits(cells, device, lifted, axis, c) == hits(
            cells,
            device,
            lifted.update(cell.0 as int, out),
            axis,
            c,
        ));
        assert(hits(cells, device, after, axis, c) == hits(
            cells,
            device,
            after.update(cell.0 as int, new_bel),
            axis,
            c,
        ));
    }
}

/// A delta that leads to a placement can be applied, and gives its counts.
proof fn lemma_axis_applies(
    cells: Seq<CellId>,
    device: &Device,
    before: Seq<Option<BelId>>,
    lifted: Seq<Option<BelId>>,
    after: Seq<Option<BelId>>,
    axis: Axis,
    axis_counts: DetailedCoordinateMultiset,
    delta: DetailedCoordinateDelta,
)
    requires
        cells.len() <= usize::MAX,
        counts_axis(cells, device, before, axis, axis_counts),
        axis_leads(cells, device, before, lifted, after, axis, delta),
    ensures
        axis_counts.admits(delta),
        axis_counts.has_room(delta),
        remaining(axis_counts.counts@, delta) == coordinates(cells, device, after, axis),
        forall|c: u32|
            #![trigger hits(cells, device, after, axis, c)]
            count_of(
                crate::bbox::after_additions(
                    crate::bbox::after_removals(
                        axis_counts.counts@,
                        delta.removals,
                        delta.removals.ordered().len() as int,
                    ),
                    delta.additions,
                    delta.additions.ordered().len() as int,
                ),
                c,
            ) == hits(cells, device, after, axis, c),
{
    let counts = axis_counts.counts@;
    assert forall|c: u32| #[trigger] delta.removals@.contains_key(c) implies can_leave(
        counts,
        c,
        delta.removals@[c],
    ) by {
        assert(count_of(delta.removals@, c) == hits(cells, device, before, axis, c) - hits(
            cells,
            device,
            lifted,
            axis,
            c,
        ));
        lemma_hits_bounded(cells, device, lifted, axis, c);
        assert(count_of(counts, c) == hits(cells, device, before, axis, c));
    }
    let gone = delta.removals.ordered();
    let middle = crate::bbox::after_removals(counts, delta.removals, gone.len() as int);
    assert forall|c: u32|
        count_of(middle, c) == #[trigger] hits(cells, device, lifted, axis, c) by {
        assert(gone.take(gone.len() as int) =~= gone);
        delta.removals.lemma_size();
        assert(gone.contains(c) <==> delta.removals@.contains_key(c)) by {
            assert(gone.to_set().contains(c) <==> gone.contains(c));
        }
        assert(count_of(delta.removals@, c) == hits(cells, device, before, axis, c) - hits(
            cells,
            device,
            lifted,
            axis,
            c,
        ));
        assert(count_of(counts, c) == hits(cells, device, before, axis, c));
    }
    assert forall|c: u32| #[trigger] delta.additions@.contains_key(c) implies delta.additions@[c]
        > 0 && count_of(middle, c) + delta.additions@[c] <= usize::MAX by {
        assert(count_of(delta.additions@, c) == hits(cells, device, after, axis, c) - hits(
            cells,
            device,
            lifted,
            axis,
            c,
        ));
        lemma_hits_bounded(cells, device, after, axis, c);
        assert(count_of(middle, c) == hits(cells, device, lifted, axis, c));
    }
    predicted_box_is_exact(counts, delta);
    let come = delta.additions.ordered();
    let end = crate::bbox::after_additions(middle, delta.additions, come.len() as int);
    assert forall|c: u32| count_of(end, c) == #[trigger] hits(cells, device, after, axis, c) by {
        assert(come.take(come.len() as int) =~= come);
        delta.additions.lemma_size();
        assert(come.contains(c) <==> delta.additions@.contains_key(c)) by {
            assert(come.to_set().contains(c) <==> come.contains(c));
        }
        assert(count_of(middle, c) == hits(cells, device, lifted, axis, c));
        assert(count_of(delta.additions@, c) == hits(cells, device, after, axis, c) - hits(
            cells,
            device,
            lifted,
            axis,
            c,
        ));
    }
    assert forall|c: u32| #[trigger]
        counted(end).contains(c) == coordinates(cells, device, after, axis).contains(c) by {
        assert(count_of(end, c) == hits(cells, device, after, axis, c));
    }
    assert(counted(end) =~= coordinates(cells, device, after, axis));
}

/// Boxes of all nets of a placement.
pub struct DetailedBoundingBoxCache {
    /// Box of each net.
    pub nets: Vec<DetailedNetBoundingBox>,
    /// How often each cell is an endpoint of each net.
    pub cell_endpoint_multiplicities: Vec<OrderedMap<NetId, usize>>,
}

/// Occurrences of a cell among the endpoints of the nets read so far.
spec fn read_occurrences(design: &Design, cell: CellId, net: NetId, done: int, read: int) -> int {
    if net.0 < done {
        occurrences(endpoints(design, net.0 as int), cell)
    } else if net.0 == done {
        occurrences(net_cells(design, net.0 as int).take(read), cell)
    } else {
        0
    }
}

/// The lists count the endpoints read so far.
spec fn lists_read(
    design: &Design,
    lists: Seq<OrderedMap<NetId, usize>>,
    done: int,
    read: int,
) -> bool {
    &&& lists.len() == design.cells@.len()
    &&& forall|c: int| 0 <= c < lists.len() ==> (#[trigger] lists[c]).wf()
    &&& forall|c: int, n: NetId|
        0 <= c < lists.len() && #[trigger] lists[c]@.contains_key(n) ==> n.0 < design.nets@.len()
            && lists[c]@[n] > 0
    &&& forall|c: int, n: NetId|
        0 <= c < lists.len() && n.0 < design.nets@.len() ==> #[trigger] times(lists[c]@, n)
            == read_occurrences(design, CellId(c as usize), n, done, read)
}

/// One more endpoint is read.
proof fn lemma_read_step(
    design: &Design,
    before: Seq<OrderedMap<NetId, usize>>,
    after: Seq<OrderedMap<NetId, usize>>,
    done: int,
    read: int,
)
    requires
        design.wf(),
        design.cells@.len() <= usize::MAX,
        design.nets@.len() <= usize::MAX,
        0 <= done < design.nets@.len(),
        0 <= read < net_cells(design, done).len(),
        lists_read(design, before, done, read),
        after.len() == before.len(),
        ({
            let cell = net_cells(design, done)[read];
            let net = NetId(done as usize);
            &&& after[cell.0 as int].wf()
            &&& after[cell.0 as int]@ == before[cell.0 as int]@.insert(
                net,
                (times(before[cell.0 as int]@, net) + 1) as usize,
            )
            &&& times(before[cell.0 as int]@, net) < usize::MAX
            &&& forall|c: int| 0 <= c < after.len() && c != cell.0 ==> #[trigger] after[c] == before[c]
        }),
    ensures
        lists_read(design, after, done, read + 1),
{
    let cell = net_cells(design, done)[read];
    let net = NetId(done as usize);
    lemma_endpoints(design, done);
    assert(net_cells(design, done).take(read + 1).drop_last() =~= net_cells(design, done).take(
        read,
    ));
    assert forall|c: int, n: NetId|
        0 <= c < after.len() && n.0 < design.nets@.len() implies #[trigger] times(after[c]@, n)
        == read_occurrences(design, CellId(c as usize), n, done, read + 1) by {
        assert(times(before[c]@, n) == read_occurrences(design, CellId(c as usize), n, done, read));
        if n.0 == done {
            assert(n == net);
            assert(occurrences(net_cells(design, done).take(read + 1), CellId(c as usize))
                == occurrences(net_cells(design, done).take(read), CellId(c as usize)) + if cell
                == CellId(c as usize) {
                1int
            } else {
                0int
            });
            if c == cell.0 {
                assert(CellId(c as usize) == cell);
            }
        }
    }
    assert forall|c: int, n: NetId|
        0 <= c < after.len() && #[trigger] after[c]@.contains_key(n) implies n.0
        < design.nets@.len() && after[c]@[n] > 0 by {
        if c == cell.0 && n == net {
        } else {
            assert(before[c]@.contains_key(n));
        }
    }
    assert forall|c: int| 0 <= c < after.len() implies (#[trigger] after[c]).wf() by {
        if c != cell.0 {
            assert(before[c].wf());
        }
    }
}

/// A net is done.
proof fn lemma_read_net(design: &Design, lists: Seq<OrderedMap<NetId, usize>>, done: int)
    requires
        0 <= done < design.nets@.len(),
        if is_clock_net(design, done) {
            lists_read(design, lists, done, 0)
        } else {
            lists_read(design, lists, done, net_cells(design, done).len() as int)
        },
    ensures
        lists_read(design, lists, done + 1, 0),
{
    let all = net_cells(design, done);
    assert(all.take(all.len() as int) =~= all);
    assert forall|c: int, n: NetId|
        0 <= c < lists.len() && n.0 < design.nets@.len() implies #[trigger] times(lists[c]@, n)
        == read_occurrences(design, CellId(c as usize), n, done + 1, 0) by {
        if n.0 == done {
        } else if n.0 == done + 1 {
            assert(net_cells(design, n.0 as int).take(0) =~= Seq::<CellId>::empty());
        }
    }
}

/// Lists, for each cell, how often it is an endpoint of each net.
fn endpoint_multiplicities(design: &Design) -> (result: Vec<OrderedMap<NetId, usize>>)
    requires
        design.wf(),
    ensures
        result@.len() == design.cells@.len(),
        forall|c: int|
            0 <= c < result@.len() ==> lists_nets(
                design,
                CellId(c as usize),
                #[trigger] result@[c],
            ),
{
    let mut lists: Vec<OrderedMap<NetId, usize>> = Vec::new();
    let mut cell: usize = 0;
    while cell < design.cells.len()
        invariant
            cell <= design.cells@.len(),
            lists@.len() == cell,
            forall|c: int|
                0 <= c < cell ==> (#[trigger] lists@[c]).wf() && lists@[c]@ == Map::<
                    NetId,
                    usize,
                >::empty(),
        decreases design.cells@.len() - cell,
    {
        lists.push(OrderedMap::new());
        cell = cell + 1;
    }
    proof {
        assert(design.cells.len() == design.cells@.len());
        assert(design.nets.len() == design.nets@.len());
        if design.nets@.len() > 0 {
            assert(net_cells(design, 0).take(0) =~= Seq::<CellId>::empty());
        }
        assert(lists_read(design, lists@, 0, 0));
    }
    let mut index: usize = 0;
    while index < design.nets.len()
        invariant
            index <= design.nets@.len(),
            design.wf(),
            design.cells@.len() <= usize::MAX,
            design.nets@.len() <= usize::MAX,
            lists_read(design, lists@, index as int, 0),
        decreases design.nets@.len() - index,
    {
        let net = &design.nets[index];
        proof {
            lemma_endpoints(design, index as int);
            assert(design.pins.len() == design.pins@.len());
            assert(design.nets@[index as int].driver.0 < design.pins@.len());
        }
        let driver = design.pins[net.driver.0].cell;
        assert(net_cells(design, index as int)[0] == driver);
        match design.cells[driver.0].kind {
            ResourceKind::Clock => {},
            _ => {
                let mut read: usize = 0;
                while read <= net.sinks.len()
                    invariant
                        read <= 1 + net.sinks@.len(),
                        index < design.nets@.len(),
                        *net == design.nets@[index as int],
                        design.wf(),
                        design.cells@.len() <= usize::MAX,
                        design.nets@.len() <= usize::MAX,
                        net_cells(design, index as int).len() <= usize::MAX,
                        driver == net_cells(design, index as int)[0],
                        forall|k: int|
                            0 <= k < net_cells(design, index as int).len() ==> (
                            #[trigger] net_cells(design, index as int)[k]).0
                                < design.cells@.len(),
                        lists_read(design, lists@, index as int, read as int),
                    decreases 1 + net.sinks@.len() - read,
                {
                    let endpoint: CellId = if read == 0 {
                        driver
                    } else {
                        assert(design.nets@[index as int].sinks@[read - 1].0 < design.pins@.len());
                        design.pins[net.sinks[read - 1].0].cell
                    };
                    proof {
                        assert(net_cells(design, index as int)[read as int] == endpoint);
                        lemma_occurrences_bounded(
                            net_cells(design, index as int).take(read as int),
                            endpoint,
                        );
                        assert(CellId((endpoint.0 as int) as usize) == endpoint);
                        assert(times(lists@[endpoint.0 as int]@, NetId(index)) == read_occurrences(
                            design,
                            endpoint,
                            NetId(index),
                            index as int,
                            read as int,
                        ));
                    }
                    let ghost before = lists@;
                    assert(lists@[endpoint.0 as int].wf());
                    let known: usize = match lists[endpoint.0].get(NetId(index)) {
                        Some(count) => *count,
                        None => 0,
                    };
                    lists[endpoint.0].insert(NetId(index), known + 1);
                    proof {
                        lemma_read_step(design, before, lists@, index as int, read as int);
                    }
                    read = read + 1;
                }
            },
        }
        proof {
            lemma_read_net(design, lists@, index as int);
        }
        index = index + 1;
    }
    proof {
        assert forall|c: int| 0 <= c < lists@.len() implies lists_nets(
            design,
            CellId(c as usize),
            #[trigger] lists@[c],
        ) by {
            assert(lists@[c].wf());
            assert forall|n: NetId| #[trigger] lists@[c]@.contains_key(n) implies n.0
                < design.nets@.len() && lists@[c]@[n] > 0 by {}
            assert forall|n: NetId| n.0 < design.nets@.len() implies #[trigger] times(
                lists@[c]@,
                n,
            ) == occurrences(endpoints(design, n.0 as int), CellId(c as usize)) by {
                assert(times(lists@[c]@, n) == read_occurrences(
                    design,
                    CellId(c as usize),
                    n,
                    design.nets@.len() as int,
                    0,
                ));
            }
        }
    }
    lists
}

/// The slots of the first cells, the others empty.
spec fn first_slots(placed: Seq<Option<BelId>>, count: int) -> Seq<Option<BelId>> {
    Seq::new(
        placed.len(),
        |c: int|
            if c < count {
                placed[c]
            } else {
                None
            },
    )
}

/// A cell joins the hits of a net.
proof fn lemma_axis_joins(
    cells: Seq<CellId>,
    device: &Device,
    placed: Seq<Option<BelId>>,
    axis: Axis,
    before: DetailedCoordinateMultiset,
    after: DetailedCoordinateMultiset,
    cell: CellId,
    bel: BelId,
)
    requires
        cell.0 < placed.len(),
        placed[cell.0 as int] is None,
        forall|k: int| 0 <= k < cells.len() ==> (#[trigger] cells[k]).0 < placed.len(),
        counts_axis(cells, device, placed, axis, before),
        after.wf(),
        count_of(before.counts@, along(bel_point(device, bel), axis)) + occurrences(cells, cell)
            <= usize::MAX,
        occurrences(cells, cell) >= 0,
        after.counts@ == before.counts@.insert(
            along(bel_point(device, bel), axis),
            (count_of(before.counts@, along(bel_point(device, bel), axis)) + occurrences(
                cells,
                cell,
            )) as usize,
        ) || (after.counts@ == before.counts@ && occurrences(cells, cell) == 0),
    ensures
        counts_axis(cells, device, placed.update(cell.0 as int, Some(bel)), axis, after),
{
    assert forall|c: u32| #[trigger]
        count_of(after.counts@, c) == hits(
            cells,
            device,
            placed.update(cell.0 as int, Some(bel)),
            axis,
            c,
        ) by {
        lemma_slot_changes(cells, device, placed, cell, Some(bel), axis, c);
        assert(count_of(before.counts@, c) == hits(cells, device, placed, axis, c));
    }
}

/// Counters have room for one more cell.
proof fn lemma_join_fits(
    cells: Seq<CellId>,
    device: &Device,
    placed: Seq<Option<BelId>>,
    axis: Axis,
    before: DetailedCoordinateMultiset,
    cell: CellId,
    bel: BelId,
)
    requires
        cell.0 < placed.len(),
        placed[cell.0 as int] is None,
        cells.len() <= usize::MAX,
        forall|k: int| 0 <= k < cells.len() ==> (#[trigger] cells[k]).0 < placed.len(),
        counts_axis(cells, device, placed, axis, before),
    ensures
        count_of(before.counts@, along(bel_point(device, bel), axis)) + occurrences(cells, cell)
            <= usize::MAX,
{
    let at = along(bel_point(device, bel), axis);
    lemma_slot_changes(cells, device, placed, cell, Some(bel), axis, at);
    lemma_hits_bounded(cells, device, placed.update(cell.0 as int, Some(bel)), axis, at);
    assert(count_of(before.counts@, at) == hits(cells, device, placed, axis, at));
}

impl DetailedBoundingBoxCache {
    /// The boxes are those of the placement.
    pub open spec fn holds(&self, graph: UnifiedGraph<'_>, placed: Seq<Option<BelId>>) -> bool {
        &&& self.nets@.len() == graph.design.nets@.len()
        &&& self.cell_endpoint_multiplicities@.len() == graph.design.cells@.len()
        &&& forall|c: int|
            0 <= c < self.cell_endpoint_multiplicities@.len() ==> lists_nets(
                graph.design,
                CellId(c as usize),
                #[trigger] self.cell_endpoint_multiplicities@[c],
            )
        &&& forall|n: int|
            0 <= n < self.nets@.len() ==> boxes_net(graph, placed, n, #[trigger] self.nets@[n])
    }

    /// Boxes of a complete placement.
    pub fn new(graph: &UnifiedGraph<'_>, placed: &Vec<Option<BelId>>) -> (result: Self)
        requires
            graph.wf(),
            placed@.len() == graph.design.cells@.len(),
            placed_on_device(graph.device, placed@),
            forall|c: int| 0 <= c < placed@.len() ==> (#[trigger] placed@[c]) is Some,
        ensures
            result.holds(*graph, placed@),
    {
        let design = graph.design();
        let device = graph.device();
        let lists = endpoint_multiplicities(design);
        let mut nets: Vec<DetailedNetBoundingBox> = Vec::new();
        let mut index: usize = 0;
        let ghost none = first_slots(placed@, 0);
        while index < design.nets.len()
            invariant
                index <= design.nets@.len(),
                design == graph.design,
                graph.wf(),
                none.len() == design.cells@.len(),
                forall|c: int| 0 <= c < none.len() ==> (#[trigger] none[c]) is None,
                nets@.len() == index,
                forall|n: int|
                    0 <= n < index ==> boxes_net(*graph, none, n, #[trigger] nets@[n]),
            decreases design.nets@.len() - index,
        {
            nets.push(DetailedNetBoundingBox::new());
            proof {
                lemma_endpoints(design, index as int);
                lemma_nothing_hit(endpoints(design, index as int), graph.device, none);
            }
            index = index + 1;
        }
        let mut cell: usize = 0;
        while cell < lists.len()
            invariant
                cell <= lists@.len(),
                design == graph.design,
                device == graph.device,
                graph.wf(),
                lists@.len() == design.cells@.len(),
                placed@.len() == design.cells@.len(),
                placed_on_device(device, placed@),
                forall|c: int| 0 <= c < placed@.len() ==> (#[trigger] placed@[c]) is Some,
                forall|c: int|
                    0 <= c < lists@.len() ==> lists_nets(
                        design,
                        CellId(c as usize),
                        #[trigger] lists@[c],
                    ),
                nets@.len() == design.nets@.len(),
                forall|n: int|
                    0 <= n < nets@.len() ==> boxes_net(
                        *graph,
                        first_slots(placed@, cell as int),
                        n,
                        #[trigger] nets@[n],
                    ),
            decreases lists@.len() - cell,
        {
            assert(placed@[cell as int] is Some);
            let bel: BelId = match placed[cell] {
                Some(bel) => bel,
                None => BelId(0),
            };
            let point = device.bels[bel.0].point;
            let list = &lists[cell];
            let ghost slots = first_slots(placed@, cell as int);
            let ghost later = slots.update(cell as int, Some(bel));
            let ghost id = CellId(cell);
            proof {
                assert(lists_nets(design, CellId((cell as int) as usize), lists@[cell as int]));
                assert(later =~= first_slots(placed@, cell + 1));
            }
            let mut at: usize = 0;
            while at < list.len()
                invariant
                    at <= list.ordered().len(),
                    *list == lists@[cell as int],
                    cell < lists@.len(),
                    design == graph.design,
                    device == graph.device,
                    graph.wf(),
                    id == CellId(cell),
                    lists_nets(design, id, *list),
                    slots.len() == design.cells@.len(),
                    lists@.len() == design.cells@.len(),
                    slots[cell as int] is None,
                    later == slots.update(cell as int, Some(bel)),
                    point == bel_point(device, bel),
                    nets@.len() == design.nets@.len(),
                    forall|n: int|
                        0 <= n < nets@.len() ==> boxes_net(
                            *graph,
                            if list.ordered().take(at as int).contains(NetId(n as usize)) {
                                later
                            } else {
                                slots
                            },
                            n,
                            #[trigger] nets@[n],
                        ),
                decreases list.ordered().len() - at,
            {
                let net = list.key_at(at);
                let multiplicity: usize = *list.value_at(at);
                let ghost cells = endpoints(design, net.0 as int);
                let ghost before = nets@;
                proof {
                    list.entry(at as int);
                    assert(list@.contains_key(net));
                    assert(times(list@, net) == occurrences(cells, id));
                    lemma_endpoints(design, net.0 as int);
                    assert(design.pins.len() == design.pins@.len());
                    assert(!list.ordered().take(at as int).contains(net)) by {
                        if list.ordered().take(at as int).contains(net) {
                            let i = list.ordered().take(at as int).index_of(net);
                            assert(list.ordered()[i].rank() < list.ordered()[at as int].rank());
                        }
                    }
                    assert(NetId((net.0 as int) as usize) == net);
                    assert(boxes_net(*graph, slots, net.0 as int, nets@[net.0 as int]));
                    lemma_join_fits(
                        cells,
                        device,
                        slots,
                        Axis::Column,
                        nets@[net.0 as int].x,
                        id,
                        bel,
                    );
                    lemma_join_fits(
                        cells,
                        device,
                        slots,
                        Axis::Row,
                        nets@[net.0 as int].y,
                        id,
                        bel,
                    );
                }
                nets[net.0].insert(point, multiplicity);
                proof {
                    let now = nets@[net.0 as int];
                    let was = before[net.0 as int];
                    lemma_axis_joins(cells, device, slots, Axis::Column, was.x, now.x, id, bel);
                    lemma_axis_joins(cells, device, slots, Axis::Row, was.y, now.y, id, bel);
                    assert forall|n: int| 0 <= n < nets@.len() implies boxes_net(
                        *graph,
                        if list.ordered().take(at + 1).contains(NetId(n as usize)) {
                            later
                        } else {
                            slots
                        },
                        n,
                        #[trigger] nets@[n],
                    ) by {
                        lemma_taken(list.ordered(), at as int, NetId(n as usize));
                        if n != net.0 {
                            assert(design.nets.len() == design.nets@.len());
                            assert(NetId(n as usize) != net);
                            assert(nets@[n] == before[n]);
                        }
                    }
                }
                at = at + 1;
            }
            proof {
                assert(list.ordered().take(at as int) =~= list.ordered());
                assert forall|n: int| 0 <= n < nets@.len() implies boxes_net(
                    *graph,
                    later,
                    n,
                    #[trigger] nets@[n],
                ) by {
                    assert(design.nets.len() == design.nets@.len());
                    let key = NetId(n as usize);
                    if !list.ordered().contains(key) {
                        assert(!list@.contains_key(key)) by {
                            if list@.contains_key(key) {
                                let k = list.key_index(key);
                            }
                        }
                        assert(times(list@, key) == occurrences(endpoints(design, n), id));
                        lemma_endpoints(design, n);
                        assert(boxes_net(*graph, slots, n, nets@[n]));
                        let cells = endpoints(design, n);
                        assert(design.pins.len() == design.pins@.len());
                        lemma_join_fits(cells, device, slots, Axis::Column, nets@[n].x, id, bel);
                        lemma_join_fits(cells, device, slots, Axis::Row, nets@[n].y, id, bel);
                        lemma_axis_joins(
                            cells,
                            device,
                            slots,
                            Axis::Column,
                            nets@[n].x,
                            nets@[n].x,
                            id,
                            bel,
                        );
                        lemma_axis_joins(
                            cells,
                            device,
                            slots,
                            Axis::Row,
                            nets@[n].y,
                            nets@[n].y,
                            id,
                            bel,
                        );
                    }
                }
            }
            cell = cell + 1;
        }
        assert(first_slots(placed@, placed@.len() as int) =~= placed@);
        DetailedBoundingBoxCache { nets, cell_endpoint_multiplicities: lists }
    }

    /// Half of the perimeter of a net's box.
    pub fn net_cost(
        &self,
        net: NetId,
        Ghost(graph): Ghost<UnifiedGraph<'_>>,
        Ghost(placed): Ghost<Seq<Option<BelId>>>,
    ) -> (result: u64)
        requires
            self.holds(graph, placed),
            net.0 < graph.design.nets@.len(),
        ensures
            result == net_span(graph, placed, net.0 as int),
    {
        proof {
            assert(boxes_net(graph, placed, net.0 as int, self.nets@[net.0 as int]));
            lemma_box_span(graph, placed, net.0 as int, self.nets@[net.0 as int]);
        }
        self.nets[net.0].cost()
    }

    /// Half of the perimeter of a net's box after the trial move.
    pub fn net_cost_after_delta(
        &self,
        net: NetId,
        workspace: &DetailedBoundingBoxDeltaWorkspace,
        Ghost(graph): Ghost<UnifiedGraph<'_>>,
        Ghost(placed): Ghost<Seq<Option<BelId>>>,
        Ghost(lifted): Ghost<Seq<Option<BelId>>>,
        Ghost(after): Ghost<Seq<Option<BelId>>>,
    ) -> (result: u64)
        requires
            graph.wf(),
            self.holds(graph, placed),
            net.0 < graph.design.nets@.len(),
            workspace.wf(graph.design.nets@.len() as int),
            workspace.leads(graph, placed, lifted, after),
        ensures
            result == net_span(graph, after, net.0 as int),
    {
        proof {
            let cells = endpoints(graph.design, net.0 as int);
            assert(boxes_net(graph, placed, net.0 as int, self.nets@[net.0 as int]));
            assert(net_leads(
                graph,
                placed,
                lifted,
                after,
                net.0 as int,
                workspace.deltas@[net.0 as int],
            ));
            lemma_endpoints(graph.design, net.0 as int);
            assert(graph.design.pins.len() == graph.design.pins@.len());
            lemma_axis_applies(
                cells,
                graph.device,
                placed,
                lifted,
                after,
                Axis::Column,
                self.nets@[net.0 as int].x,
                workspace.deltas@[net.0 as int].x,
            );
            lemma_axis_applies(
                cells,
                graph.device,
                placed,
                lifted,
                after,
                Axis::Row,
                self.nets@[net.0 as int].y,
                workspace.deltas@[net.0 as int].y,
            );
            lemma_axes_match(cells, graph.device, after, Axis::Column, Axis::Row);
            lemma_axes_match(cells, graph.device, after, Axis::Row, Axis::Column);
        }
        match self.nets[net.0].cost_after_delta(&workspace.deltas[net.0]) {
            Some(cost) => cost,
            None => 0,
        }
    }

    /// Makes the trial move in the boxes.
    pub fn apply_deltas(
        &mut self,
        workspace: &DetailedBoundingBoxDeltaWorkspace,
        Ghost(graph): Ghost<UnifiedGraph<'_>>,
        Ghost(placed): Ghost<Seq<Option<BelId>>>,
        Ghost(lifted): Ghost<Seq<Option<BelId>>>,
        Ghost(after): Ghost<Seq<Option<BelId>>>,
    )
        requires
            graph.wf(),
            old(self).holds(graph, placed),
            workspace.wf(graph.design.nets@.len() as int),
            workspace.leads(graph, placed, lifted, after),
        ensures
            final(self).holds(graph, after),
    {
        let ghost nets = graph.design.nets@.len() as int;
        let mut at: usize = 0;
        while at < workspace.touched.len()
            invariant
                at <= workspace.touched@.len(),
                graph.wf(),
                nets == graph.design.nets@.len(),
                workspace.wf(nets),
                workspace.leads(graph, placed, lifted, after),
                self.nets@.len() == nets,
                self.cell_endpoint_multiplicities == old(self).cell_endpoint_multiplicities,
                forall|n: int|
                    0 <= n < nets ==> boxes_net(
                        graph,
                        if workspace.touched@.take(at as int).contains(NetId(n as usize)) {
                            after
                        } else {
                            placed
                        },
                        n,
                        #[trigger] self.nets@[n],
                    ),
            decreases workspace.touched@.len() - at,
        {
            let net = workspace.touched[at];
            let ghost before = self.nets@;
            let ghost cells = endpoints(graph.design, net.0 as int);
            proof {
                assert(workspace.touched@[at as int].0 < nets);
                assert(NetId((net.0 as int) as usize) == net);
                assert(!workspace.touched@.take(at as int).contains(net)) by {
                    if workspace.touched@.take(at as int).contains(net) {
                        let i = workspace.touched@.take(at as int).index_of(net);
                        assert(workspace.touched@[i] == workspace.touched@[at as int]);
                    }
                }
                assert(boxes_net(graph, placed, net.0 as int, self.nets@[net.0 as int]));
                assert(net_leads(
                    graph,
                    placed,
                    lifted,
                    after,
                    net.0 as int,
                    workspace.deltas@[net.0 as int],
                ));
                lemma_endpoints(graph.design, net.0 as int);
                assert(graph.design.pins.len() == graph.design.pins@.len());
                lemma_axis_applies(
                    cells,
                    graph.device,
                    placed,
                    lifted,
                    after,
                    Axis::Column,
                    self.nets@[net.0 as int].x,
                    workspace.deltas@[net.0 as int].x,
                );
                lemma_axis_applies(
                    cells,
                    graph.device,
                    placed,
                    lifted,
                    after,
                    Axis::Row,
                    self.nets@[net.0 as int].y,
                    workspace.deltas@[net.0 as int].y,
                );
            }
            let _ = self.nets[net.0].apply_delta(&workspace.deltas[net.0]);
            proof {
                let now = self.nets@[net.0 as int];
                assert forall|c: u32| #[trigger]
                    count_of(now.x.counts@, c) == hits(
                        cells,
                        graph.device,
                        after,
                        Axis::Column,
                        c,
                    ) by {
                    let hit = hits(cells, graph.device, after, Axis::Column, c);
                }
                assert forall|c: u32| #[trigger]
                    count_of(now.y.counts@, c) == hits(cells, graph.device, after, Axis::Row, c) by {
                    let hit = hits(cells, graph.device, after, Axis::Row, c);
                }
                assert(boxes_net(graph, after, net.0 as int, now));
                assert forall|n: int| 0 <= n < nets implies boxes_net(
                    graph,
                    if workspace.touched@.take(at + 1).contains(NetId(n as usize)) {
                        after
                    } else {
                        placed
                    },
                    n,
                    #[trigger] self.nets@[n],
                ) by {
                    assert(graph.design.nets.len() == graph.design.nets@.len());
                    lemma_taken(workspace.touched@, at as int, NetId(n as usize));
                    if n != net.0 {
                        assert(NetId(n as usize) != net);
                        assert(self.nets@[n] == before[n]);
                    }
                }
            }
            at = at + 1;
        }
        proof {
            assert(workspace.touched@.take(at as int) =~= workspace.touched@);
            assert forall|n: int| 0 <= n < nets implies boxes_net(
                graph,
                after,
                n,
                #[trigger] self.nets@[n],
            ) by {
                assert(graph.design.nets.len() == graph.design.nets@.len());
                let key = NetId(n as usize);
                if !workspace.touched@.contains(key) {
                    assert(!workspace.active@[n]) by {
                        if workspace.active@[n] {
                            assert(workspace.active@[key.0 as int]);
                            assert(workspace.touched@.contains(key));
                        }
                    }
                    assert(workspace.deltas@[n].is_clear());
                    assert(net_leads(graph, placed, lifted, after, n, workspace.deltas@[n]));
                    assert(boxes_net(graph, placed, n, self.nets@[n]));
                    lemma_clear_leads(
                        endpoints(graph.design, n),
                        graph.device,
                        placed,
                        lifted,
                        after,
                        Axis::Column,
                        workspace.deltas@[n].x,
                        self.nets@[n].x,
                    );
                    lemma_clear_leads(
                        endpoints(graph.design, n),
                        graph.device,
                        placed,
                        lifted,
                        after,
                        Axis::Row,
                        workspace.deltas@[n].y,
                        self.nets@[n].y,
                    );
                }
            }
        }
    }
}

/// Counts stay right under an empty delta.
proof fn lemma_clear_leads(
    cells: Seq<CellId>,
    device: &Device,
    before: Seq<Option<BelId>>,
    lifted: Seq<Option<BelId>>,
    after: Seq<Option<BelId>>,
    axis: Axis,
    delta: DetailedCoordinateDelta,
    axis_counts: DetailedCoordinateMultiset,
)
    requires
        delta.is_clear(),
        axis_leads(cells, device, before, lifted, after, axis, delta),
        counts_axis(cells, device, before, axis, axis_counts),
    ensures
        counts_axis(cells, device, after, axis, axis_counts),
{
    assert forall|c: u32| #[trigger]
        count_of(axis_counts.counts@, c) == hits(cells, device, after, axis, c) by {
        assert(count_of(delta.removals@, c) == hits(cells, device, before, axis, c) - hits(
            cells,
            device,
            lifted,
            axis,
            c,
        ));
        assert(count_of(delta.additions@, c) == hits(cells, device, after, axis, c) - hits(
            cells,
            device,
            lifted,
            axis,
            c,
        ));
    }
}

/// Nothing placed, nothing hit.
proof fn lemma_nothing_hit(cells: Seq<CellId>, device: &Device, placed: Seq<Option<BelId>>)
    requires
        forall|k: int| 0 <= k < cells.len() ==> (#[trigger] cells[k]).0 < placed.len(),
        forall|c: int| 0 <= c < placed.len() ==> (#[trigger] placed[c]) is None,
    ensures
        forall|axis: Axis, c: u32| #[trigger] hits(cells, device, placed, axis, c) == 0,
    decreases cells.len(),
{
    if cells.len() > 0 {
        let rest = cells.drop_last();
        assert forall|k: int| 0 <= k < rest.len() implies (#[trigger] rest[k]).0
            < placed.len() by {
            assert(rest[k] == cells[k]);
        }
        lemma_nothing_hit(rest, device, placed);
        assert(cells[cells.len() - 1].0 < placed.len());
        assert(placed[cells[cells.len() - 1].0 as int] is None);
        assert forall|axis: Axis, c: u32| #[trigger]
            hits(cells, device, placed, axis, c) == 0 by {
            assert(hits(rest, device, placed, axis, c) == 0);
        }
    }
}

/// One more element of a prefix.
proof fn lemma_taken(keys: Seq<NetId>, index: int, key: NetId)
    requires
        0 <= index < keys.len(),
    ensures
        keys.take(index + 1).contains(key) <==> keys.take(index).contains(key) || key
            == keys[index],
{
    assert(keys.take(index + 1) =~= keys.take(index).push(keys[index]));
    if keys.take(index).contains(key) {
        let i = keys.take(index).index_of(key);
        assert(keys.take(index + 1)[i] == key);
    }
    if key == keys[index] {
        assert(keys.take(index + 1)[index] == key);
    }
}

/// A box has the half-perimeter of its net.
proof fn lemma_box_span(
    graph: UnifiedGraph<'_>,
    placed: Seq<Option<BelId>>,
    net: int,
    net_box: DetailedNetBoundingBox,
)
    requires
        boxes_net(graph, placed, net, net_box),
    ensures
        net_box.wf(),
        net_box.axes_match(),
        net_box.half_perimeter() == net_span(graph, placed, net),
{
    let cells = endpoints(graph.design, net);
    assert(counted(net_box.x.counts@) =~= coordinates(cells, graph.device, placed, Axis::Column));
    assert(counted(net_box.y.counts@) =~= coordinates(cells, graph.device, placed, Axis::Row));
    lemma_axes_match(cells, graph.device, placed, Axis::Column, Axis::Row);
    lemma_axes_match(cells, graph.device, placed, Axis::Row, Axis::Column);
}

/// An empty workspace leads nowhere.
proof fn lemma_clear_workspace(
    workspace: &DetailedBoundingBoxDeltaWorkspace,
    graph: UnifiedGraph<'_>,
    placed: Seq<Option<BelId>>,
)
    requires
        workspace.wf(graph.design.nets@.len() as int),
        workspace.is_clear(),
    ensures
        workspace.leads(graph, placed, placed, placed),
{
    assert forall|n: int| 0 <= n < graph.design.nets@.len() implies net_leads(
        graph,
        placed,
        placed,
        placed,
        n,
        #[trigger] workspace.deltas@[n],
    ) by {
        assert(workspace.deltas@[n].wf());
        assert(workspace.deltas@[n].is_clear());
    }
}

impl DetailedBoundingBoxCache {
    /// Moves one cell's endpoints in the deltas.
    fn move_endpoints(
        &self,
        graph: &UnifiedGraph<'_>,
        cell: CellId,
        bel: BelId,
        new_bel: BelId,
        workspace: &mut DetailedBoundingBoxDeltaWorkspace,
        Ghost(placed): Ghost<Seq<Option<BelId>>>,
        Ghost(lifted): Ghost<Seq<Option<BelId>>>,
        Ghost(after): Ghost<Seq<Option<BelId>>>,
    )
        requires
            graph.wf(),
            self.holds(*graph, placed),
            placed.len() == graph.design.cells@.len(),
            lifted.len() == placed.len(),
            after.len() == placed.len(),
            cell.0 < placed.len(),
            bel.0 < graph.device.bels@.len(),
            new_bel.0 < graph.device.bels@.len(),
            lifted[cell.0 as int] == Some(bel),
            after[cell.0 as int] == Some(bel),
            old(workspace).wf(graph.design.nets@.len() as int),
            old(workspace).leads(*graph, placed, lifted, after),
        ensures
            final(workspace).wf(graph.design.nets@.len() as int),
            final(workspace).leads(
                *graph,
                placed,
                lifted.update(cell.0 as int, None),
                after.update(cell.0 as int, Some(new_bel)),
            ),
    {
        let device = graph.device();
        let point = device.bels[bel.0].point;
        let new_point = device.bels[new_bel.0].point;
        let list = &self.cell_endpoint_multiplicities[cell.0];
        let ghost nets = graph.design.nets@.len() as int;
        let ghost out = lifted.update(cell.0 as int, None);
        let ghost next = after.update(cell.0 as int, Some(new_bel));
        proof {
            assert(CellId((cell.0 as int) as usize) == cell);
            assert(lists_nets(
                graph.design,
                CellId((cell.0 as int) as usize),
                self.cell_endpoint_multiplicities@[cell.0 as int],
            ));
            assert(list.ordered().take(0) =~= Seq::<NetId>::empty());
        }
        let mut at: usize = 0;
        while at < list.len()
            invariant
                at <= list.ordered().len(),
                graph.wf(),
                device == graph.device,
                nets == graph.design.nets@.len(),
                lists_nets(graph.design, cell, *list),
                placed.len() == graph.design.cells@.len(),
                lifted.len() == placed.len(),
                after.len() == placed.len(),
                cell.0 < placed.len(),
                point == bel_point(device, bel),
                new_point == bel_point(device, new_bel),
                lifted[cell.0 as int] == Some(bel),
                after[cell.0 as int] == Some(bel),
                out == lifted.update(cell.0 as int, None),
                next == after.update(cell.0 as int, Some(new_bel)),
                workspace.wf(nets),
                forall|n: int|
                    0 <= n < nets ==> if list.ordered().take(at as int).contains(
                        NetId(n as usize),
                    ) {
                        net_leads(*graph, placed, out, next, n, #[trigger] workspace.deltas@[n])
                    } else {
                        net_leads(*graph, placed, lifted, after, n, workspace.deltas@[n])
                    },
            decreases list.ordered().len() - at,
        {
            let net = list.key_at(at);
            let multiplicity: usize = *list.value_at(at);
            let ghost cells = endpoints(graph.design, net.0 as int);
            proof {
                list.entry(at as int);
                assert(list@.contains_key(net));
                assert(times(list@, net) == occurrences(cells, cell));
                lemma_endpoints(graph.design, net.0 as int);
                assert(graph.design.pins.len() == graph.design.pins@.len());
                assert(!list.ordered().take(at as int).contains(net)) by {
                    if list.ordered().take(at as int).contains(net) {
                        let i = list.ordered().take(at as int).index_of(net);
                        assert(list.ordered()[i].rank() < list.ordered()[at as int].rank());
                    }
                }
                assert(NetId((net.0 as int) as usize) == net);
            }
            workspace.touch(net, Ghost(nets));
            let ghost before = *workspace;
            let ghost was = workspace.deltas@[net.0 as int];
            proof {
                assert(net_leads(*graph, placed, lifted, after, net.0 as int, was));
                lemma_axis_room(
                    cells,
                    device,
                    placed,
                    lifted,
                    after,
                    Axis::Column,
                    was.x,
                    cell,
                    bel,
                    new_bel,
                );
                lemma_axis_room(
                    cells,
                    device,
                    placed,
                    lifted,
                    after,
                    Axis::Row,
                    was.y,
                    cell,
                    bel,
                    new_bel,
                );
            }
            workspace.deltas[net.0].x.remove(point.x, multiplicity);
            workspace.deltas[net.0].x.add(new_point.x, multiplicity);
            workspace.deltas[net.0].y.remove(point.y, multiplicity);
            workspace.deltas[net.0].y.add(new_point.y, multiplicity);
            proof {
                let now = workspace.deltas@[net.0 as int];
                lemma_axis_step(
                    cells,
                    device,
                    placed,
                    lifted,
                    after,
                    Axis::Column,
                    was.x,
                    now.x,
                    cell,
                    bel,
                    new_bel,
                );
                lemma_axis_step(
                    cells,
                    device,
                    placed,
                    lifted,
                    after,
                    Axis::Row,
                    was.y,
                    now.y,
                    cell,
                    bel,
                    new_bel,
                );
                assert(net_leads(*graph, placed, out, next, net.0 as int, now));
                assert forall|n: int| 0 <= n < nets implies (
                #[trigger] workspace.deltas@[n]).wf() by {
                    if n != net.0 {
                        assert(before.deltas@[n].wf());
                    }
                }
                assert forall|n: int| 0 <= n < nets && !workspace.active@[n] implies (
                #[trigger] workspace.deltas@[n]).is_clear() by {
                    assert(n != net.0);
                    assert(before.deltas@[n].is_clear());
                }
                assert forall|n: NetId|
                    n.0 < nets
                        && workspace.active@[n.0 as int] implies #[trigger] workspace.touched@.contains(
                    n,
                ) by {
                    assert(before.touched@.contains(n));
                }
                assert forall|i: int| 0 <= i < workspace.touched@.len() implies (
                #[trigger] workspace.touched@[i]).0 < nets
                    && workspace.active@[workspace.touched@[i].0 as int] by {
                    assert(before.active@[before.touched@[i].0 as int]);
                }
                assert forall|n: int| 0 <= n < nets implies if list.ordered().take(
                    at + 1,
                ).contains(NetId(n as usize)) {
                    net_leads(*graph, placed, out, next, n, #[trigger] workspace.deltas@[n])
                } else {
                    net_leads(*graph, placed, lifted, after, n, workspace.deltas@[n])
                } by {
                    lemma_taken(list.ordered(), at as int, NetId(n as usize));
                    assert(graph.design.nets.len() == graph.design.nets@.len());
                    if n != net.0 {
                        assert(NetId(n as usize) != net);
                        assert(workspace.deltas@[n] == before.deltas@[n]);
                    }
                }
            }
            at = at + 1;
        }
        proof {
            assert(list.ordered().take(at as int) =~= list.ordered());
            assert forall|n: int| 0 <= n < nets implies net_leads(
                *graph,
                placed,
                out,
                next,
                n,
                #[trigger] workspace.deltas@[n],
            ) by {
                assert(graph.design.nets.len() == graph.design.nets@.len());
                let key = NetId(n as usize);
                if !list.ordered().contains(key) {
                    assert(!list@.contains_key(key)) by {
                        if list@.contains_key(key) {
                            let k = list.key_index(key);
                        }
                    }
                    assert(times(list@, key) == occurrences(endpoints(graph.design, n), cell));
                    lemma_endpoints(graph.design, n);
                    let cells = endpoints(graph.design, n);
                    let delta = workspace.deltas@[n];
                    lemma_axis_still(
                        cells,
                        device,
                        placed,
                        lifted,
                        after,
                        Axis::Column,
                        delta.x,
                        cell,
                        None,
                        Some(new_bel),
                    );
                    lemma_axis_still(
                        cells,
                        device,
                        placed,
                        lifted,
                        after,
                        Axis::Row,
                        delta.y,
                        cell,
                        None,
                        Some(new_bel),
                    );
                }
            }
        }
    }

    /// Gathers what changes in the boxes where the cells move to the row.
    pub fn trial_deltas(
        &self,
        graph: &UnifiedGraph<'_>,
        cells: &Vec<CellId>,
        row: &Vec<BelId>,
        placed: &Vec<Option<BelId>>,
        workspace: &mut DetailedBoundingBoxDeltaWorkspace,
    ) -> (lifted: Ghost<Seq<Option<BelId>>>)
        requires
            graph.wf(),
            self.holds(*graph, placed@),
            placed@.len() == graph.design.cells@.len(),
            placed_on_device(graph.device, placed@),
            cells@.len() == row@.len(),
            cells@.no_duplicates(),
            cells_in_range(cells@, placed@.len() as int),
            forall|k: int|
                0 <= k < cells@.len() ==> placed@[(#[trigger] cells@[k]).0 as int] is Some,
            forall|k: int|
                0 <= k < row@.len() ==> (#[trigger] row@[k]).0 < graph.device.bels@.len(),
            old(workspace).wf(graph.design.nets@.len() as int),
        ensures
            final(workspace).wf(graph.design.nets@.len() as int),
            final(workspace).leads(
                *graph,
                placed@,
                lifted@,
                with_row(placed@, cells@, row@),
            ),
    {
        let device = graph.device();
        let ghost nets = graph.design.nets@.len() as int;
        workspace.clear(Ghost(nets));
        let ghost mut lifted = placed@;
        let ghost mut after = placed@;
        proof {
            lemma_clear_workspace(workspace, *graph, placed@);
            assert(cells@.take(0) =~= Seq::<CellId>::empty());
            assert(row@.take(0) =~= Seq::<BelId>::empty());
        }
        let mut at: usize = 0;
        while at < cells.len()
            invariant
                at <= cells@.len(),
                graph.wf(),
                device == graph.device,
                nets == graph.design.nets@.len(),
                self.holds(*graph, placed@),
                placed@.len() == graph.design.cells@.len(),
                placed_on_device(graph.device, placed@),
                cells@.len() == row@.len(),
                cells@.no_duplicates(),
                cells_in_range(cells@, placed@.len() as int),
                forall|k: int|
                    0 <= k < cells@.len() ==> placed@[(#[trigger] cells@[k]).0 as int] is Some,
                forall|k: int|
                    0 <= k < row@.len() ==> (#[trigger] row@[k]).0 < graph.device.bels@.len(),
                workspace.wf(nets),
                lifted.len() == placed@.len(),
                after.len() == placed@.len(),
                after == with_row(placed@, cells@.take(at as int), row@.take(at as int)),
                forall|k: int|
                    at <= k < cells@.len() ==> lifted[(#[trigger] cells@[k]).0 as int]
                        == placed@[cells@[k].0 as int] && after[cells@[k].0 as int]
                        == placed@[cells@[k].0 as int],
                workspace.leads(*graph, placed@, lifted, after),
            decreases cells@.len() - at,
        {
            let cell = cells[at];
            let new_bel = row[at];
            assert(cells@[at as int].0 < placed@.len());
            assert(placed@[cells@[at as int].0 as int] is Some);
            let bel: BelId = match placed[cell.0] {
                Some(bel) => bel,
                None => BelId(0),
            };
            assert(row@[at as int].0 < graph.device.bels@.len());
            let point = device.bels[bel.0].point;
            let new_point = device.bels[new_bel.0].point;
            let ghost out: Option<BelId> = if point.x == new_point.x && point.y == new_point.y {
                Some(bel)
            } else {
                None
            };
            if point.x != new_point.x || point.y != new_point.y {
                self.move_endpoints(
                    graph,
                    cell,
                    bel,
                    new_bel,
                    workspace,
                    Ghost(placed@),
                    Ghost(lifted),
                    Ghost(after),
                );
            } else {
                proof {
                    assert forall|n: int| 0 <= n < nets implies net_leads(
                        *graph,
                        placed@,
                        lifted.update(cell.0 as int, Some(bel)),
                        after.update(cell.0 as int, Some(new_bel)),
                        n,
                        #[trigger] workspace.deltas@[n],
                    ) by {
                        assert(net_leads(
                            *graph,
                            placed@,
                            lifted,
                            after,
                            n,
                            workspace.deltas@[n],
                        ));
                        lemma_endpoints(graph.design, n);
                        let ends = endpoints(graph.design, n);
                        lemma_axis_still(
                            ends,
                            device,
                            placed@,
                            lifted,
                            after,
                            Axis::Column,
                            workspace.deltas@[n].x,
                            cell,
                            Some(bel),
                            Some(new_bel),
                        );
                        lemma_axis_still(
                            ends,
                            device,
                            placed@,
                            lifted,
                            after,
                            Axis::Row,
                            workspace.deltas@[n].y,
                            cell,
                            Some(bel),
                            Some(new_bel),
                        );
                    }
                }
            }
            proof {
                assert(cells@.take(at + 1).drop_last() =~= cells@.take(at as int));
                assert(row@.take(at + 1).drop_last() =~= row@.take(at as int));
                assert(cells@.take(at + 1).last() == cell);
                assert(row@.take(at + 1).last() == new_bel);
                let gone = lifted.update(cell.0 as int, out);
                let next = after.update(cell.0 as int, Some(new_bel));
                assert(next == with_row(placed@, cells@.take(at + 1), row@.take(at + 1)));
                assert forall|k: int| at + 1 <= k < cells@.len() implies gone[(
                #[trigger] cells@[k]).0 as int] == placed@[cells@[k].0 as int]
                    && next[cells@[k].0 as int] == placed@[cells@[k].0 as int] by {
                    assert(cells@[k] != cells@[at as int]);
                    assert(cells@[k].0 < placed@.len());
                }
                lifted = gone;
                after = next;
            }
            at = at + 1;
        }
        proof {
            assert(cells@.take(at as int) =~= cells@);
            assert(row@.take(at as int) =~= row@);
        }
        Ghost(lifted)
    }
}

} // verus!
