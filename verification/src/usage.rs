//! Running counts of what placed cells take of wires and shared sites.

use vstd::prelude::*;

use crate::candidates::{candidate_pin_wire, bindings_in_range};
use crate::device::{Device, UnifiedGraph};
use crate::model::{BelId, CellId, CellPinId, NetId, WireId};
use crate::ordered::{OrderedKey, OrderedMap};
use crate::placement_constraints::PlacementConstraints;
use crate::usage_model::{
    cell_hits, cells_in_range, hits, lemma_hits_update, lemma_placed_bound, lemma_values_bound,
    lemma_values_update, lemma_with_row, lemma_without_cells, pin_hits, placed_hits, placed_values,
    puts_value, slot_value, with_row, without_cells, SharedSite,
};

verus! {

/// Count of a key.
pub open spec fn tally<K>(table: Map<K, u128>, key: K) -> nat {
    if table.contains_key(key) {
        table[key] as nat
    } else {
        0
    }
}

/// Every listed count is positive.
pub open spec fn all_positive<K>(table: Map<K, u128>) -> bool {
    forall|k: K| #[trigger] table.contains_key(k) ==> table[k] > 0
}

/// Counts a key once more.
fn raise<K: OrderedKey>(table: &mut OrderedMap<K, u128>, key: K)
    requires
        old(table).wf(),
        all_positive(old(table)@),
        tally(old(table)@, key) < u128::MAX,
    ensures
        final(table).wf(),
        all_positive(final(table)@),
        forall|k: K| #[trigger]
            tally(final(table)@, k) == tally(old(table)@, k) + if k == key {
                1int
            } else {
                0
            },
{
    let count: u128 = match table.get(key) {
        Some(count) => *count,
        None => 0,
    };
    table.insert(key, count + 1);
}

/// Counts a key once less.
fn lower<K: OrderedKey>(table: &mut OrderedMap<K, u128>, key: K)
    requires
        old(table).wf(),
        all_positive(old(table)@),
        tally(old(table)@, key) > 0,
    ensures
        final(table).wf(),
        all_positive(final(table)@),
        forall|k: K| #[trigger]
            tally(final(table)@, k) == tally(old(table)@, k) - if k == key {
                1int
            } else {
                0
            },
{
    let count: u128 = match table.get(key) {
        Some(count) => *count,
        None => 1,
    };
    if count == 1 {
        table.remove(key);
    } else {
        table.insert(key, count - 1);
    }
}

/// A count after a change.
pub open spec fn shifted(count: nat, change: nat, added: bool) -> int {
    if added {
        count as int + change
    } else {
        count - change
    }
}

/// Counts of the nets on each wire and of the values on each site.
pub struct PlacementResourceUsage {
    /// Pins of each net on each wire.
    pub pin_wires: Vec<OrderedMap<NetId, u128>>,
    /// Cells of each value on each site.
    pub shared: OrderedMap<SharedSite, OrderedMap<u64, u128>>,
}

impl PlacementResourceUsage {
    /// The tables are ordered and hold positive counts only.
    pub open spec fn wf(&self, wires: int) -> bool {
        &&& self.pin_wires@.len() == wires
        &&& forall|w: int|
            0 <= w < wires ==> (#[trigger] self.pin_wires@[w]).wf() && all_positive(
                self.pin_wires@[w]@,
            )
        &&& self.shared.wf()
        &&& forall|s: SharedSite| #[trigger]
            self.shared@.contains_key(s) ==> self.shared@[s].wf() && all_positive(self.shared@[s]@)
    }

    /// Number of pins of the net on the wire.
    pub open spec fn pins(&self, wire: WireId, net: NetId) -> nat {
        if wire.0 < self.pin_wires@.len() {
            tally(self.pin_wires@[wire.0 as int]@, net)
        } else {
            0
        }
    }

    /// Number of cells of the value on the site.
    pub open spec fn values(&self, site: SharedSite, value: u64) -> nat {
        if self.shared@.contains_key(site) {
            tally(self.shared@[site]@, value)
        } else {
            0
        }
    }

    /// The counts are those of the placed cells.
    pub open spec fn tracks(
        &self,
        graph: UnifiedGraph<'_>,
        constraints: &PlacementConstraints,
        placed: Seq<Option<BelId>>,
    ) -> bool {
        &&& self.wf(graph.device.wires@.len() as int)
        &&& placed.len() == graph.design.cells@.len()
        &&& forall|w: WireId, n: NetId| #[trigger]
            self.pins(w, n) == placed_hits(graph, constraints, placed, w, n)
        &&& forall|s: SharedSite, v: u64| #[trigger]
            self.values(s, v) == placed_values(constraints, placed, s, v)
    }

    /// Nothing is used.
    pub fn new(device: &Device) -> (result: Self)
        ensures
            result.wf(device.wires@.len() as int),
            forall|w: WireId, n: NetId| #[trigger] result.pins(w, n) == 0,
            forall|s: SharedSite, v: u64| #[trigger] result.values(s, v) == 0,
    {
        let mut pin_wires: Vec<OrderedMap<NetId, u128>> = Vec::new();
        let mut index: usize = 0;
        while index < device.wires.len()
            invariant
                index <= device.wires@.len(),
                pin_wires@.len() == index,
                forall|w: int|
                    0 <= w < index ==> (#[trigger] pin_wires@[w]).wf() && pin_wires@[w]@
                        == Map::<NetId, u128>::empty(),
            decreases device.wires@.len() - index,
        {
            pin_wires.push(OrderedMap::new());
            index = index + 1;
        }
        PlacementResourceUsage { pin_wires, shared: OrderedMap::new() }
    }

    /// Counts the pins of one cell on a BEL, or takes them out.
    fn count_pins(
        &mut self,
        graph: &UnifiedGraph<'_>,
        constraints: &PlacementConstraints,
        cell: CellId,
        bel: BelId,
        added: bool,
    )
        requires
            graph.wf(),
            constraints.wf(),
            bindings_in_range(*graph, constraints),
            cell.0 < graph.design.cells@.len(),
            old(self).wf(graph.device.wires@.len() as int),
            added ==> forall|w: WireId, n: NetId| #[trigger]
                old(self).pins(w, n) + cell_hits(
                    *graph,
                    constraints,
                    cell.0 as int,
                    Some(bel),
                    w,
                    n,
                ) <= u128::MAX,
            !added ==> forall|w: WireId, n: NetId| #[trigger]
                old(self).pins(w, n) >= cell_hits(
                    *graph,
                    constraints,
                    cell.0 as int,
                    Some(bel),
                    w,
                    n,
                ),
        ensures
            final(self).wf(graph.device.wires@.len() as int),
            final(self).shared == old(self).shared,
            forall|w: WireId, n: NetId| #[trigger]
                final(self).pins(w, n) == shifted(old(self).pins(w, n), cell_hits(
                        *graph,
                        constraints,
                        cell.0 as int,
                        Some(bel),
                        w,
                        n,
                    ), added),
    {
        let pins = &graph.design().cells[cell.0].pins;
        let ghost before = *self;
        let ghost count = graph.device.wires@.len() as int;
        let mut index: usize = 0;
        while index < pins.len()
            invariant
                index <= pins@.len(),
                graph.wf(),
                constraints.wf(),
                bindings_in_range(*graph, constraints),
                cell.0 < graph.design.cells@.len(),
                pins@ == graph.design.cells@[cell.0 as int].pins@,
                count == graph.device.wires@.len(),
                self.wf(count),
                self.shared == before.shared,
                added ==> forall|w: WireId, n: NetId| #[trigger]
                    before.pins(w, n) + hits(*graph, constraints, pins@, bel, w, n) <= u128::MAX,
                !added ==> forall|w: WireId, n: NetId| #[trigger]
                    before.pins(w, n) >= hits(*graph, constraints, pins@, bel, w, n),
                forall|w: WireId, n: NetId| #[trigger]
                    self.pins(w, n) == shifted(before.pins(w, n), hits(
                            *graph,
                            constraints,
                            pins@.take(index as int),
                            bel,
                            w,
                            n,
                        ), added),
            decreases pins@.len() - index,
        {
            let pin = pins[index];
            assert(graph.design.cells@[cell.0 as int].pins@[index as int] == pin);
            let ghost shorter = pins@.take(index as int);
            let ghost longer = pins@.take(index + 1);
            let ghost middle = *self;
            proof {
                assert(longer.drop_last() =~= shorter);
                assert(longer.last() == pin);
                assert forall|w: WireId, n: NetId| hits(*graph, constraints, longer, bel, w, n)
                    <= #[trigger] hits(*graph, constraints, pins@, bel, w, n) by {
                    lemma_hits_prefix(*graph, constraints, pins@, index + 1, bel, w, n);
                }
            }
            if let Some(net) = graph.design().pins[pin.0].net {
                if let Some(wire) = candidate_pin_wire(graph, constraints, pin, bel) {
                    proof {
                        assert(hits(*graph, constraints, longer, bel, wire, net) == hits(
                            *graph,
                            constraints,
                            shorter,
                            bel,
                            wire,
                            net,
                        ) + 1);
                        assert(hits(*graph, constraints, longer, bel, wire, net) <= hits(
                            *graph,
                            constraints,
                            pins@,
                            bel,
                            wire,
                            net,
                        ));
                        assert(middle.pins(wire, net) == tally(
                            middle.pin_wires@[wire.0 as int]@,
                            net,
                        ));
                        if added {
                            assert(before.pins(wire, net) + hits(
                                *graph,
                                constraints,
                                pins@,
                                bel,
                                wire,
                                net,
                            ) <= u128::MAX);
                        } else {
                            assert(before.pins(wire, net) >= hits(
                                *graph,
                                constraints,
                                pins@,
                                bel,
                                wire,
                                net,
                            ));
                        }
                    }
                    if added {
                        raise(&mut self.pin_wires[wire.0], net);
                    } else {
                        lower(&mut self.pin_wires[wire.0], net);
                    }
                    proof {
                        assert forall|w: WireId, n: NetId| #[trigger]
                            self.pins(w, n) == shifted(before.pins(w, n), hits(*graph, constraints, longer, bel, w, n), added) by {
                            assert(middle.pins(w, n) == shifted(before.pins(w, n), hits(*graph, constraints, shorter, bel, w, n), added));
                            assert(pin_hits(*graph, constraints, pin, bel, w, n) == (w == wire && n
                                == net));
                            if w.0 < count && w != wire {
                                assert(self.pin_wires@[w.0 as int] == middle.pin_wires@[w.0 as int]);
                            }
                        }
                    }
                } else {
                    proof {
                        assert forall|w: WireId, n: NetId| #[trigger] self.pins(w, n) == shifted(
                            before.pins(w, n),
                            hits(*graph, constraints, longer, bel, w, n),
                            added,
                        ) by {
                            assert(!pin_hits(*graph, constraints, pin, bel, w, n));
                            assert(middle.pins(w, n) == shifted(
                                before.pins(w, n),
                                hits(*graph, constraints, shorter, bel, w, n),
                                added,
                            ));
                        }
                    }
                }
            } else {
                proof {
                    assert forall|w: WireId, n: NetId| #[trigger] self.pins(w, n) == shifted(before.pins(w, n), hits(*graph, constraints, longer, bel, w, n), added) by {
                        assert(!pin_hits(*graph, constraints, pin, bel, w, n));
                        assert(middle.pins(w, n) == shifted(before.pins(w, n), hits(*graph, constraints, shorter, bel, w, n), added));
                    }
                }
            }
            index = index + 1;
        }
        assert(pins@.take(index as int) =~= pins@);
    }
}

/// The first pins join no more than all of them.
proof fn lemma_hits_prefix(
    graph: UnifiedGraph<'_>,
    constraints: &PlacementConstraints,
    pins: Seq<CellPinId>,
    count: int,
    bel: BelId,
    wire: WireId,
    net: NetId,
)
    requires
        0 <= count <= pins.len(),
    ensures
        hits(graph, constraints, pins.take(count), bel, wire, net) <= hits(
            graph,
            constraints,
            pins,
            bel,
            wire,
            net,
        ),
    decreases pins.len(),
{
    if count == pins.len() {
        assert(pins.take(count) =~= pins);
    } else {
        assert(pins.drop_last().take(count) =~= pins.take(count));
        lemma_hits_prefix(graph, constraints, pins.drop_last(), count, bel, wire, net);
    }
}

/// Whether the cell on the BEL puts the value on the site of an early rule, as a number.
spec fn early_value(
    constraints: &PlacementConstraints,
    cell: CellId,
    bel: BelId,
    count: int,
    site: SharedSite,
    value: u64,
) -> nat {
    if site.rule < count && puts_value(constraints, cell, bel, site, value) {
        1
    } else {
        0
    }
}

impl PlacementResourceUsage {
    /// Counts one value on a site, or takes it out.
    fn count_value(&mut self, site: SharedSite, value: u64, added: bool, Ghost(wires): Ghost<int>)
        requires
            old(self).wf(wires),
            added ==> old(self).values(site, value) < u128::MAX,
            !added ==> old(self).values(site, value) > 0,
        ensures
            final(self).wf(wires),
            final(self).pin_wires == old(self).pin_wires,
            forall|s: SharedSite, v: u64| #[trigger]
                final(self).values(s, v) == shifted(
                    old(self).values(s, v),
                    if s == site && v == value {
                        1
                    } else {
                        0
                    },
                    added,
                ),
    {
        let ghost before = *self;
        let mut table: OrderedMap<u64, u128> = match self.shared.remove(site) {
            Some(table) => table,
            None => OrderedMap::new(),
        };
        let ghost earlier = table@;
        proof {
            assert forall|v: u64| #[trigger] tally(earlier, v) == before.values(site, v) by {}
        }
        if added {
            raise(&mut table, value);
        } else {
            lower(&mut table, value);
        }
        let ghost later = table@;
        if !table.is_empty() {
            self.shared.insert(site, table);
        } else {
            proof {
                table.lemma_size();
                assert forall|v: u64| tally(later, v) == 0 by {
                    assert(!table@.dom().contains(v)) by {
                        if table@.contains_key(v) {
                            let i = table.key_index(v);
                        }
                    }
                }
            }
        }
        proof {
            assert forall|s: SharedSite, v: u64| #[trigger] self.values(s, v) == shifted(
                before.values(s, v),
                if s == site && v == value {
                    1
                } else {
                    0
                },
                added,
            ) by {
                if s == site {
                    assert(self.values(s, v) == tally(later, v));
                    assert(tally(earlier, v) == before.values(site, v));
                } else {
                    assert(self.shared@.contains_key(s) == before.shared@.contains_key(s));
                }
            }
        }
    }

    /// Counts the values of one cell on a BEL, or takes them out.
    fn count_values(
        &mut self,
        constraints: &PlacementConstraints,
        cell: CellId,
        bel: BelId,
        added: bool,
        Ghost(wires): Ghost<int>,
    )
        requires
            constraints.wf(),
            old(self).wf(wires),
            added ==> forall|s: SharedSite, v: u64| #[trigger] old(self).values(s, v) < u128::MAX,
            !added ==> forall|s: SharedSite, v: u64| #[trigger]
                old(self).values(s, v) >= slot_value(
                    constraints,
                    cell.0 as int,
                    Some(bel),
                    s,
                    v,
                ),
        ensures
            final(self).wf(wires),
            final(self).pin_wires == old(self).pin_wires,
            forall|s: SharedSite, v: u64| #[trigger]
                final(self).values(s, v) == shifted(
                    old(self).values(s, v),
                    slot_value(constraints, cell.0 as int, Some(bel), s, v),
                    added,
                ),
    {
        let ghost before = *self;
        let mut index: usize = 0;
        assert(CellId(cell.0 as int as usize) == cell);
        while index < constraints.shared_resources.len()
            invariant
                index <= constraints.shared_resources@.len(),
                constraints.wf(),
                CellId(cell.0 as int as usize) == cell,
                self.wf(wires),
                self.pin_wires == before.pin_wires,
                added ==> forall|s: SharedSite, v: u64| #[trigger] before.values(s, v) < u128::MAX,
                !added ==> forall|s: SharedSite, v: u64| #[trigger]
                    before.values(s, v) >= slot_value(
                        constraints,
                        cell.0 as int,
                        Some(bel),
                        s,
                        v,
                    ),
                forall|s: SharedSite, v: u64| #[trigger]
                    self.values(s, v) == shifted(
                        before.values(s, v),
                        early_value(constraints, cell, bel, index as int, s, v),
                        added,
                    ),
            decreases constraints.shared_resources@.len() - index,
        {
            let rule = &constraints.shared_resources[index];
            assert(constraints.shared_resources@[index as int].wf());
            let ghost middle = *self;
            let mut found: Option<(u64, u64)> = None;
            if let Some(value) = rule.cell_values.get(cell) {
                if let Some(resource) = rule.bel_resources.get(bel) {
                    found = Some((*resource, *value));
                }
            }
            if let Some((resource, value)) = found {
                let site = SharedSite { rule: index, resource };
                proof {
                    assert(puts_value(constraints, cell, bel, site, value));
                    assert(middle.values(site, value) == before.values(site, value));
                    if !added {
                        assert(before.values(site, value) >= slot_value(
                            constraints,
                            cell.0 as int,
                            Some(bel),
                            site,
                            value,
                        ));
                    }
                }
                self.count_value(site, value, added, Ghost(wires));
                proof {
                    assert forall|s: SharedSite, v: u64| #[trigger] self.values(s, v) == shifted(
                        before.values(s, v),
                        early_value(constraints, cell, bel, index + 1, s, v),
                        added,
                    ) by {
                        assert(middle.values(s, v) == shifted(
                            before.values(s, v),
                            early_value(constraints, cell, bel, index as int, s, v),
                            added,
                        ));
                        if s.rule == index {
                            assert(puts_value(constraints, cell, bel, s, v) == (s == site && v
                                == value));
                        }
                    }
                }
            } else {
                proof {
                    assert forall|s: SharedSite, v: u64| #[trigger] self.values(s, v) == shifted(
                        before.values(s, v),
                        early_value(constraints, cell, bel, index + 1, s, v),
                        added,
                    ) by {
                        assert(middle.values(s, v) == shifted(
                            before.values(s, v),
                            early_value(constraints, cell, bel, index as int, s, v),
                            added,
                        ));
                    }
                }
            }
            index = index + 1;
        }
        proof {
            assert forall|s: SharedSite, v: u64| #[trigger] self.values(s, v) == shifted(
                before.values(s, v),
                slot_value(constraints, cell.0 as int, Some(bel), s, v),
                added,
            ) by {
                assert(early_value(constraints, cell, bel, index as int, s, v) == slot_value(
                    constraints,
                    cell.0 as int,
                    Some(bel),
                    s,
                    v,
                ));
            }
        }
    }

    /// Places one cell.
    pub(crate) fn enter(
        &mut self,
        graph: &UnifiedGraph<'_>,
        constraints: &PlacementConstraints,
        cell: CellId,
        bel: BelId,
        Ghost(placed): Ghost<Seq<Option<BelId>>>,
    )
        requires
            graph.wf(),
            constraints.wf(),
            bindings_in_range(*graph, constraints),
            cell.0 < graph.design.cells@.len(),
            old(self).tracks(*graph, constraints, placed),
            placed[cell.0 as int] is None,
        ensures
            final(self).tracks(*graph, constraints, placed.update(cell.0 as int, Some(bel))),
    {
        let ghost before = *self;
        let ghost after = placed.update(cell.0 as int, Some(bel));
        proof {
            assert(graph.design.cells.len() == graph.design.cells@.len());
            assert forall|w: WireId, n: NetId| #[trigger] before.pins(w, n) + cell_hits(
                *graph,
                constraints,
                cell.0 as int,
                Some(bel),
                w,
                n,
            ) <= u128::MAX by {
                lemma_hits_update(*graph, constraints, placed, cell.0 as int, Some(bel), w, n);
                lemma_placed_bound(*graph, constraints, after, w, n);
                assert(after.len() * usize::MAX <= u128::MAX) by (nonlinear_arith)
                    requires
                        after.len() <= usize::MAX,
                        usize::MAX <= u64::MAX,
                ;
            }
            assert forall|s: SharedSite, v: u64| #[trigger] before.values(s, v) < u128::MAX by {
                lemma_values_bound(constraints, placed, s, v);
            }
        }
        self.count_pins(graph, constraints, cell, bel, true);
        let ghost middle = *self;
        proof {
            assert forall|s: SharedSite, v: u64| #[trigger] middle.values(s, v) < u128::MAX by {
                assert(middle.values(s, v) == before.values(s, v));
            }
        }
        self.count_values(
            constraints,
            cell,
            bel,
            true,
            Ghost(graph.device.wires@.len() as int),
        );
        proof {
            assert forall|w: WireId, n: NetId| #[trigger] self.pins(w, n) == placed_hits(
                *graph,
                constraints,
                after,
                w,
                n,
            ) by {
                lemma_hits_update(*graph, constraints, placed, cell.0 as int, Some(bel), w, n);
                assert(self.pins(w, n) == middle.pins(w, n));
                assert(before.pins(w, n) == placed_hits(*graph, constraints, placed, w, n));
            }
            assert forall|s: SharedSite, v: u64| #[trigger] self.values(s, v) == placed_values(
                constraints,
                after,
                s,
                v,
            ) by {
                lemma_values_update(constraints, placed, cell.0 as int, Some(bel), s, v);
                assert(middle.values(s, v) == before.values(s, v));
                assert(before.values(s, v) == placed_values(constraints, placed, s, v));
            }
        }
    }

    /// Takes one cell out.
    pub(crate) fn leave(
        &mut self,
        graph: &UnifiedGraph<'_>,
        constraints: &PlacementConstraints,
        cell: CellId,
        bel: BelId,
        Ghost(placed): Ghost<Seq<Option<BelId>>>,
    )
        requires
            graph.wf(),
            constraints.wf(),
            bindings_in_range(*graph, constraints),
            cell.0 < graph.design.cells@.len(),
            old(self).tracks(*graph, constraints, placed),
            placed[cell.0 as int] == Some(bel),
        ensures
            final(self).tracks(*graph, constraints, placed.update(cell.0 as int, None)),
    {
        let ghost before = *self;
        let ghost after = placed.update(cell.0 as int, None);
        proof {
            assert forall|w: WireId, n: NetId| #[trigger] before.pins(w, n) >= cell_hits(
                *graph,
                constraints,
                cell.0 as int,
                Some(bel),
                w,
                n,
            ) by {
                lemma_hits_update(*graph, constraints, placed, cell.0 as int, None, w, n);
            }
            assert forall|s: SharedSite, v: u64| #[trigger] before.values(s, v) >= slot_value(
                constraints,
                cell.0 as int,
                Some(bel),
                s,
                v,
            ) by {
                lemma_values_update(constraints, placed, cell.0 as int, None, s, v);
            }
        }
        self.count_pins(graph, constraints, cell, bel, false);
        let ghost middle = *self;
        proof {
            assert forall|s: SharedSite, v: u64| #[trigger] middle.values(s, v) >= slot_value(
                constraints,
                cell.0 as int,
                Some(bel),
                s,
                v,
            ) by {
                assert(middle.values(s, v) == before.values(s, v));
            }
        }
        self.count_values(
            constraints,
            cell,
            bel,
            false,
            Ghost(graph.device.wires@.len() as int),
        );
        proof {
            assert forall|w: WireId, n: NetId| #[trigger] self.pins(w, n) == placed_hits(
                *graph,
                constraints,
                after,
                w,
                n,
            ) by {
                lemma_hits_update(*graph, constraints, placed, cell.0 as int, None, w, n);
                assert(self.pins(w, n) == middle.pins(w, n));
                assert(before.pins(w, n) == placed_hits(*graph, constraints, placed, w, n));
            }
            assert forall|s: SharedSite, v: u64| #[trigger] self.values(s, v) == placed_values(
                constraints,
                after,
                s,
                v,
            ) by {
                lemma_values_update(constraints, placed, cell.0 as int, None, s, v);
                assert(middle.values(s, v) == before.values(s, v));
                assert(before.values(s, v) == placed_values(constraints, placed, s, v));
            }
        }
    }
}

/// Places the cells of an assignment in the usage, or takes them out.
pub(crate) fn update_placement_resource_usage(
    graph: &UnifiedGraph<'_>,
    constraints: &PlacementConstraints,
    cells: &Vec<CellId>,
    assignment: &Vec<BelId>,
    usage: &mut PlacementResourceUsage,
    add: bool,
    Ghost(placed): Ghost<Seq<Option<BelId>>>,
)
    requires
        graph.wf(),
        constraints.wf(),
        bindings_in_range(*graph, constraints),
        cells@.len() == assignment@.len(),
        cells@.no_duplicates(),
        cells_in_range(cells@, graph.design.cells@.len() as int),
        old(usage).tracks(*graph, constraints, placed),
        forall|k: int|
            0 <= k < cells@.len() ==> placed[(#[trigger] cells@[k]).0 as int] == if add {
                None
            } else {
                Some(assignment@[k])
            },
    ensures
        final(usage).tracks(
            *graph,
            constraints,
            if add {
                with_row(placed, cells@, assignment@)
            } else {
                without_cells(placed, cells@)
            },
        ),
{
    let mut index: usize = 0;
    let ghost mut now = placed;
    while index < cells.len()
        invariant
            index <= cells@.len(),
            graph.wf(),
            constraints.wf(),
            bindings_in_range(*graph, constraints),
            cells@.len() == assignment@.len(),
            cells@.no_duplicates(),
            cells_in_range(cells@, graph.design.cells@.len() as int),
            placed.len() == graph.design.cells@.len(),
            usage.tracks(*graph, constraints, now),
            forall|k: int|
                0 <= k < cells@.len() ==> placed[(#[trigger] cells@[k]).0 as int] == if add {
                    None
                } else {
                    Some(assignment@[k])
                },
            now == if add {
                with_row(placed, cells@.take(index as int), assignment@.take(index as int))
            } else {
                without_cells(placed, cells@.take(index as int))
            },
        decreases cells@.len() - index,
    {
        let cell = cells[index];
        let bel = assignment[index];
        let ghost shorter = cells@.take(index as int);
        let ghost longer = cells@.take(index + 1);
        proof {
            assert(cells@[index as int].0 < graph.design.cells@.len());
            assert(longer.drop_last() =~= shorter);
            assert(assignment@.take(index + 1).drop_last() =~= assignment@.take(index as int));
            assert(cells_in_range(shorter, placed.len() as int)) by {
                assert forall|k: int| 0 <= k < shorter.len() implies (#[trigger] shorter[k]).0
                    < placed.len() by {
                    assert(shorter[k] == cells@[k]);
                }
            }
            assert(!shorter.contains(cell)) by {
                if shorter.contains(cell) {
                    let k = shorter.index_of(cell);
                    assert(cells@[k] == cells@[index as int]);
                }
            }
            assert(CellId(cell.0 as int as usize) == cell);
            if add {
                lemma_with_row(placed, shorter, assignment@.take(index as int));
                assert(now[cell.0 as int] == placed[cell.0 as int]);
            } else {
                lemma_without_cells(placed, shorter);
                assert(now[cell.0 as int] == placed[cell.0 as int]);
            }
        }
        if add {
            usage.enter(graph, constraints, cell, bel, Ghost(now));
            proof {
                now = now.update(cell.0 as int, Some(bel));
            }
        } else {
            usage.leave(graph, constraints, cell, bel, Ghost(now));
            proof {
                now = now.update(cell.0 as int, None);
            }
        }
        index = index + 1;
    }
    proof {
        assert(cells@.take(index as int) =~= cells@);
        assert(assignment@.take(index as int) =~= assignment@);
    }
}

} // verus!
