//! Decomposition of a physical route tree into endpoint arcs.

use vstd::prelude::*;
use vstd::string::*;

use crate::device::Device;
use crate::model::{CellPinId, NetId, PipId, WireId};
use crate::ordered::{increasing, lemma_mapped_multiset, OrderedKey, OrderedSet};
use crate::route::{NetRoute, RouteArc};
use crate::text::{decimal_text, numbered};
use crate::tree::{tree_depth, ParentHop, RouteTree};

verus! {

/// Wires joined by PIPs of a set, from the driver on.
pub open spec fn is_pip_walk(
    device: &Device,
    pips: Set<PipId>,
    driver: WireId,
    wires: Seq<WireId>,
    hops: Seq<PipId>,
) -> bool {
    &&& wires.len() == hops.len() + 1
    &&& wires[0] == driver
    &&& forall|i: int|
        0 <= i < hops.len() ==> pips.contains(#[trigger] hops[i]) && device.leads(
            wires[i],
            hops[i],
            wires[i + 1],
        )
}

/// PIPs of the set lead from the driver to the wire.
pub open spec fn is_reachable(
    device: &Device,
    pips: Set<PipId>,
    driver: WireId,
    wire: WireId,
) -> bool {
    exists|wires: Seq<WireId>, hops: Seq<PipId>| #[trigger]
        is_pip_walk(device, pips, driver, wires, hops) && wires.last() == wire
}

/// Every wire that PIPs of the set lead to from the driver.
pub open spec fn reach(device: &Device, pips: Set<PipId>, driver: WireId) -> Set<WireId> {
    Set::new(|wire: WireId| is_reachable(device, pips, driver, wire))
}

/// A path of PIPs of the set, without repeated wires, goes on from the wire.
pub open spec fn goes_on(
    device: &Device,
    pips: Set<PipId>,
    driver: WireId,
    wire: WireId,
) -> bool {
    exists|wires: Seq<WireId>, hops: Seq<PipId>|
        {
            &&& #[trigger] is_pip_walk(device, pips, driver, wires, hops)
            &&& wires.no_duplicates()
            &&& wires.drop_last().contains(wire)
        }
}

/// Some sink stands on the wire.
pub open spec fn is_sink_wire(sinks: Seq<(CellPinId, WireId)>, wire: WireId) -> bool {
    exists|k: int| 0 <= k < sinks.len() && (#[trigger] sinks[k]).1 == wire
}

/// The tree ends at the wire, and no sink stands on it.
pub open spec fn is_free_end(
    device: &Device,
    pips: Set<PipId>,
    driver: WireId,
    sinks: Seq<(CellPinId, WireId)>,
    wire: WireId,
) -> bool {
    &&& reach(device, pips, driver).contains(wire)
    &&& !goes_on(device, pips, driver, wire)
    &&& !is_sink_wire(sinks, wire)
}

/// The free ends, each once.
pub open spec fn lists_free_ends(
    device: &Device,
    pips: Set<PipId>,
    driver: WireId,
    sinks: Seq<(CellPinId, WireId)>,
    ends: Seq<WireId>,
) -> bool {
    &&& ends.no_duplicates()
    &&& forall|w: WireId| #[trigger]
        ends.contains(w) <==> is_free_end(device, pips, driver, sinks, w)
}

/// Sink and last wire of each arc.
pub open spec fn endpoints(arcs: Seq<RouteArc>) -> Seq<(Option<CellPinId>, WireId)> {
    arcs.map_values(|arc: RouteArc| (arc.sink, arc.wires@.last()))
}

/// Every listed sink on its wire, and every free end without a sink.
pub open spec fn tree_endpoints(
    sinks: Seq<(CellPinId, WireId)>,
    ends: Seq<WireId>,
) -> Seq<(Option<CellPinId>, WireId)> {
    sinks.map_values(|sink: (CellPinId, WireId)| (Some(sink.0), sink.1)) + ends.map_values(
        |wire: WireId| (None::<CellPinId>, wire),
    )
}

/// Why a set of PIPs and sinks is no driver-rooted tree.
pub open spec fn tree_defect(
    device: &Device,
    pips: &[PipId],
    driver: WireId,
    sinks: &[(CellPinId, WireId)],
    reason: Seq<char>,
) -> bool {
    let set = pips@.to_set();
    ||| exists|p: PipId| #[trigger]
        set.contains(p) && p.0 >= device.pips@.len() && (forall|q: PipId| #[trigger]
            set.contains(q) && q.0 >= device.pips@.len() ==> p.0 <= q.0) && reason
            == "unknown PIP PipId("@ + decimal_text(p.0 as nat) + ")"@
    ||| {
        &&& forall|p: PipId| #[trigger] set.contains(p) ==> p.0 < device.pips@.len()
        &&& set.len() + 1 != reach(device, set, driver).len()
        &&& reason == "physical route is not one driver-rooted tree"@
    }
    ||| {
        &&& forall|p: PipId| #[trigger] set.contains(p) ==> p.0 < device.pips@.len()
        &&& set.len() + 1 == reach(device, set, driver).len()
        &&& exists|k: int|
            0 <= k < sinks@.len() && !reach(device, set, driver).contains(
                (#[trigger] sinks@[k]).1,
            ) && (forall|j: int|
                0 <= j < k ==> reach(device, set, driver).contains((#[trigger] sinks@[j]).1))
                && reason == "sink pin "@ + decimal_text(sinks@[k].0.0 as nat)
                + " is disconnected"@
    }
}

/// An increasing sequence of ranks below a bound is no longer than the bound.
proof fn lemma_increasing_bound<K: OrderedKey>(keys: Seq<K>, bound: int, index: int)
    requires
        increasing(keys),
        forall|i: int| 0 <= i < keys.len() ==> 0 <= (#[trigger] keys[i]).rank() < bound,
        0 <= index < keys.len(),
    ensures
        keys[index].rank() >= index,
    decreases index,
{
    if index > 0 {
        lemma_increasing_bound(keys, bound, index - 1);
        assert(keys[index - 1].rank() < keys[index].rank());
    }
}

/// Tree of the wires that a set of PIPs leads to.
struct Exploration {
    tree: RouteTree,
    /// PIPs that the tree takes.
    used: OrderedSet<PipId>,
    /// Wires from which the tree goes on.
    inner: OrderedSet<WireId>,
}

impl Exploration {
    /// Some wire hangs on the given one.
    spec fn has_child(&self, wire: WireId) -> bool {
        exists|c: WireId| #[trigger]
            self.tree.parent@.contains_key(c) && self.tree.parent@[c].wire == wire
    }

    /// Some wire is entered by the given PIP.
    spec fn enters(&self, pip: PipId) -> bool {
        exists|c: WireId| #[trigger]
            self.tree.parent@.contains_key(c) && self.tree.parent@[c].pip == pip
    }

    /// One listed hop of a wire leads to the tree, if its PIP is in the set.
    spec fn hop_done(&self, device: &Device, pips: Set<PipId>, wire: WireId, index: int) -> bool {
        let hop = device.neighbors@[wire.0 as int]@[index];
        pips.contains(hop.1) ==> self.tree.wires@.contains(hop.0)
    }

    /// The first hops of a wire lead to the tree, if their PIPs are in the set.
    spec fn hops_done(&self, device: &Device, pips: Set<PipId>, wire: WireId, count: int) -> bool {
        forall|k: int| 0 <= k < count ==> #[trigger] self.hop_done(device, pips, wire, k)
    }

    /// Every hop of a wire leads to the tree, if its PIP is in the set.
    spec fn done(&self, device: &Device, pips: Set<PipId>, wire: WireId) -> bool {
        self.hops_done(device, pips, wire, device.neighbors@[wire.0 as int]@.len() as int)
    }

    /// The tree takes PIPs of the set, each into one wire.
    spec fn wf(&self, device: &Device, pips: Set<PipId>, driver: WireId) -> bool {
        &&& self.tree.wf(device)
        &&& self.tree.driver == driver
        &&& self.used.wf()
        &&& self.inner.wf()
        &&& forall|w: WireId| #[trigger]
            self.tree.wires@.contains(w) ==> w == driver || w.0 < device.wires@.len()
        &&& forall|w: WireId| #[trigger]
            self.tree.parent@.contains_key(w) ==> pips.contains(self.tree.parent@[w].pip)
        &&& forall|a: WireId, b: WireId| #[trigger]
            self.tree.parent@.contains_key(a) && #[trigger] self.tree.parent@.contains_key(b) && a
                != b ==> self.tree.parent@[a].pip != self.tree.parent@[b].pip
        &&& forall|p: PipId| #[trigger] self.used@.contains(p) <==> self.enters(p)
        &&& forall|w: WireId| #[trigger] self.inner@.contains(w) <==> self.has_child(w)
        &&& self.used.ordered().len() + 1 == self.tree.wires.ordered().len()
    }

    /// The tree has no more wires than the device.
    proof fn lemma_bounded(&self, device: &Device, pips: Set<PipId>, driver: WireId)
        requires
            self.wf(device, pips, driver),
            driver.0 < device.wires@.len(),
        ensures
            self.tree.wires.ordered().len() <= device.wires@.len(),
    {
        let keys = self.tree.wires.ordered();
        assert forall|i: int| 0 <= i < keys.len() implies 0 <= (#[trigger] keys[i]).rank()
            < device.wires@.len() by {
            assert(keys.contains(keys[i]));
            self.tree.wires.membership(keys[i]);
        }
        if keys.len() > 0 {
            lemma_increasing_bound(keys, device.wires@.len() as int, keys.len() - 1);
        }
    }

    /// Grows the tree by one wire.
    fn grow(&mut self, wire: WireId, next: WireId, pip: PipId, device: &Device, Ghost(pips): Ghost<
        Set<PipId>,
    >)
        requires
            old(self).wf(device, pips, old(self).tree.driver),
            device.wf(),
            old(self).tree.wires@.contains(wire),
            !old(self).tree.wires@.contains(next),
            device.leads(wire, pip, next),
            pips.contains(pip),
        ensures
            final(self).wf(device, pips, old(self).tree.driver),
            final(self).tree.driver == old(self).tree.driver,
            final(self).tree.wires@ == old(self).tree.wires@.insert(next),
            final(self).tree.wires.ordered().len() == old(self).tree.wires.ordered().len() + 1,
    {
        let ghost before = *self;
        proof {
            device.lemma_listed(wire, pip, next);
            if before.enters(pip) {
                let c = choose|c: WireId| #[trigger]
                    before.tree.parent@.contains_key(c) && before.tree.parent@[c].pip == pip;
                assert(before.tree.hangs(device, c));
            }
            assert(!before.used@.contains(pip));
            assert(!before.tree.parent@.contains_key(next)) by {
                if before.tree.parent@.contains_key(next) {
                    assert(before.tree.hangs(device, next));
                }
            }
        }
        self.tree.add(next, ParentHop { wire, pip }, device);
        self.used.insert(pip);
        self.inner.insert(wire);
        proof {
            let after = *self;
            assert(after.tree.parent@.contains_key(next));
            assert forall|p: PipId| #[trigger] after.used@.contains(p) <==> after.enters(p) by {
                if before.enters(p) {
                    let c = choose|c: WireId| #[trigger]
                        before.tree.parent@.contains_key(c) && before.tree.parent@[c].pip == p;
                    assert(after.tree.parent@.contains_key(c) && after.tree.parent@[c].pip == p);
                }
                if after.enters(p) && p != pip {
                    let c = choose|c: WireId| #[trigger]
                        after.tree.parent@.contains_key(c) && after.tree.parent@[c].pip == p;
                    assert(c != next);
                    assert(before.tree.parent@.contains_key(c) && before.tree.parent@[c].pip == p);
                }
                if p == pip {
                    assert(after.tree.parent@.contains_key(next) && after.tree.parent@[next].pip
                        == p);
                }
            }
            assert forall|w: WireId| #[trigger] after.inner@.contains(w) <==> after.has_child(w) by {
                if before.has_child(w) {
                    let c = choose|c: WireId| #[trigger]
                        before.tree.parent@.contains_key(c) && before.tree.parent@[c].wire == w;
                    assert(after.tree.parent@.contains_key(c) && after.tree.parent@[c].wire == w);
                }
                if after.has_child(w) && w != wire {
                    let c = choose|c: WireId| #[trigger]
                        after.tree.parent@.contains_key(c) && after.tree.parent@[c].wire == w;
                    assert(c != next);
                    assert(before.tree.parent@.contains_key(c) && before.tree.parent@[c].wire == w);
                }
                if w == wire {
                    assert(after.tree.parent@.contains_key(next) && after.tree.parent@[next].wire
                        == w);
                }
            }
            assert forall|a: WireId, b: WireId| #[trigger]
                after.tree.parent@.contains_key(a) && #[trigger] after.tree.parent@.contains_key(b)
                    && a != b implies after.tree.parent@[a].pip != after.tree.parent@[b].pip by {
                if a == next {
                    assert(before.tree.parent@.contains_key(b));
                    if before.tree.parent@[b].pip == pip {
                        assert(before.enters(pip));
                    }
                } else if b == next {
                    assert(before.tree.parent@.contains_key(a));
                    if before.tree.parent@[a].pip == pip {
                        assert(before.enters(pip));
                    }
                }
            }
            before.used.size();
            before.tree.wires.size();
        }
    }

    /// Follows the PIPs of a set from the driver as far as they lead.
    fn explore(driver: WireId, pips: &OrderedSet<PipId>, device: &Device) -> (result: Exploration)
        requires
            device.wf(),
            pips.wf(),
        ensures
            result.wf(device, pips@, driver),
            result.tree.wires@ == reach(device, pips@, driver),
    {
        let mut found = Exploration {
            tree: RouteTree::new(driver, device),
            used: OrderedSet::new(),
            inner: OrderedSet::new(),
        };
        if driver.0 >= device.wires.len() {
            proof {
                assert forall|w: WireId| found.tree.wires@.contains(w) <==> is_reachable(
                    device,
                    pips@,
                    driver,
                    w,
                ) by {
                    if w == driver {
                        found.lemma_tree_is_reachable(device, pips@, driver, w);
                    }
                    if is_reachable(device, pips@, driver, w) {
                        let (wires, hops) = choose|wires: Seq<WireId>, hops: Seq<PipId>| #[trigger]
                            is_pip_walk(device, pips@, driver, wires, hops) && wires.last() == w;
                        if hops.len() > 0 {
                            assert(pips@.contains(hops[0]));
                            assert(device.leads(wires[0], hops[0], wires[1]));
                            let pip = device.pips@[hops[0].0 as int];
                            assert(pip.from.0 < device.wires@.len());
                        }
                    }
                }
                assert(found.tree.wires@ =~= reach(device, pips@, driver));
            }
            return found;
        }
        let mut pending: Vec<WireId> = Vec::new();
        pending.push(driver);
        let ghost count = device.wires@.len() as int;
        proof {
            assert(pending@.contains(pending@[0]));
        }
        loop
            invariant
                device.wf(),
                pips.wf(),
                found.wf(device, pips@, driver),
                count == device.wires@.len(),
                driver.0 < device.wires@.len(),
                forall|i: int|
                    0 <= i < pending@.len() ==> found.tree.wires@.contains(#[trigger] pending@[i]),
                forall|w: WireId| #[trigger]
                    found.tree.wires@.contains(w) ==> pending@.contains(w) || found.done(
                        device,
                        pips@,
                        w,
                    ),
            ensures
                found.wf(device, pips@, driver),
                forall|w: WireId| #[trigger]
                    found.tree.wires@.contains(w) ==> found.done(device, pips@, w),
            decreases count - found.tree.wires.ordered().len(), pending@.len(),
        {
            let ghost waiting = pending@;
            let wire = match pending.pop() {
                None => {
                    proof {
                        assert forall|w: WireId| #[trigger] found.tree.wires@.contains(w) implies found.done(
                            device,
                            pips@,
                            w,
                        ) by {
                            assert(!waiting.contains(w));
                        }
                    }
                    break ;
                },
                Some(wire) => wire,
            };
            let ghost start = found.tree.wires.ordered().len();
            let ghost start_pending = pending@;
            proof {
                assert(waiting[waiting.len() - 1] == wire);
                assert(found.tree.wires@.contains(wire));
                assert forall|w: WireId| #[trigger] found.tree.wires@.contains(w) && w
                    != wire implies pending@.contains(w) || found.done(device, pips@, w) by {
                    if waiting.contains(w) {
                        let i = waiting.index_of(w);
                        assert(pending@[i] == w);
                    }
                }
            }
            let hops = &device.neighbors[wire.0];
            let mut index: usize = 0;
            while index < hops.len()
                invariant
                    index <= hops@.len(),
                    device.wf(),
                    pips.wf(),
                    hops@ == device.neighbors@[wire.0 as int]@,
                    wire.0 < device.wires@.len(),
                    found.wf(device, pips@, driver),
                    found.tree.wires@.contains(wire),
                    found.hops_done(device, pips@, wire, index as int),
                    forall|i: int|
                        0 <= i < pending@.len() ==> found.tree.wires@.contains(
                            #[trigger] pending@[i],
                        ),
                    forall|w: WireId| #[trigger]
                        found.tree.wires@.contains(w) && w != wire ==> pending@.contains(w)
                            || found.done(device, pips@, w),
                    found.tree.wires.ordered().len() > start || (found.tree.wires.ordered().len()
                        == start && pending@ == start_pending),
                decreases hops@.len() - index,
            {
                proof {
                    device.lemma_hop(wire, index as int);
                }
                let next = hops[index].0;
                let pip = hops[index].1;
                if pips.contains(pip) && !found.tree.wires.contains(next) {
                    let ghost before = found;
                    let ghost queue = pending@;
                    found.grow(wire, next, pip, device, Ghost(pips@));
                    pending.push(next);
                    proof {
                        assert forall|w: WireId| #[trigger] found.tree.wires@.contains(w) && w
                            != wire implies pending@.contains(w) || found.done(
                            device,
                            pips@,
                            w,
                        ) by {
                            if w == next {
                                assert(pending@[queue.len() as int] == next);
                            } else {
                                assert(before.tree.wires@.contains(w));
                                if queue.contains(w) {
                                    let i = queue.index_of(w);
                                    assert(pending@[i] == w);
                                } else {
                                    assert(before.done(device, pips@, w));
                                    assert forall|k: int|
                                        0 <= k
                                            < device.neighbors@[w.0 as int]@.len() implies #[trigger] found.hop_done(
                                        device,
                                        pips@,
                                        w,
                                        k,
                                    ) by {
                                        assert(before.hop_done(device, pips@, w, k));
                                    }
                                }
                            }
                        }
                        assert forall|k: int| 0 <= k < index implies #[trigger] found.hop_done(
                            device,
                            pips@,
                            wire,
                            k,
                        ) by {
                            assert(before.hop_done(device, pips@, wire, k));
                        }
                    }
                }
                proof {
                    assert(found.hop_done(device, pips@, wire, index as int));
                    assert forall|k: int| 0 <= k < index + 1 implies #[trigger] found.hop_done(
                        device,
                        pips@,
                        wire,
                        k,
                    ) by {}
                }
                index = index + 1;
            }
            proof {
                assert(found.done(device, pips@, wire));
                found.lemma_bounded(device, pips@, driver);
            }
        }
        proof {
            assert forall|w: WireId| found.tree.wires@.contains(w) <==> is_reachable(
                device,
                pips@,
                driver,
                w,
            ) by {
                if found.tree.wires@.contains(w) {
                    found.lemma_tree_is_reachable(device, pips@, driver, w);
                }
                if is_reachable(device, pips@, driver, w) {
                    let (wires, hops) = choose|wires: Seq<WireId>, hops: Seq<PipId>| #[trigger]
                        is_pip_walk(device, pips@, driver, wires, hops) && wires.last() == w;
                    found.lemma_walk_in_tree(
                        device,
                        pips@,
                        driver,
                        wires,
                        hops,
                        wires.len() - 1,
                    );
                }
            }
            assert(found.tree.wires@ =~= reach(device, pips@, driver));
        }
        found
    }

    /// Every wire of the tree is reachable.
    proof fn lemma_tree_is_reachable(
        &self,
        device: &Device,
        pips: Set<PipId>,
        driver: WireId,
        wire: WireId,
    )
        requires
            self.wf(device, pips, driver),
            self.tree.wires@.contains(wire),
        ensures
            is_reachable(device, pips, driver, wire),
    {
        assert(self.tree.anchored(wire));
        let depth = choose|depth: nat| tree_depth(self.tree.parent@, driver, wire, depth);
        self.lemma_depth_is_reachable(device, pips, driver, wire, depth);
    }

    /// Every wire with a chain to the driver is reachable.
    proof fn lemma_depth_is_reachable(
        &self,
        device: &Device,
        pips: Set<PipId>,
        driver: WireId,
        wire: WireId,
        depth: nat,
    )
        requires
            self.wf(device, pips, driver),
            tree_depth(self.tree.parent@, driver, wire, depth),
        ensures
            is_reachable(device, pips, driver, wire),
        decreases depth,
    {
        if wire == driver {
            let wires = seq![driver];
            let hops = Seq::<PipId>::empty();
            assert(is_pip_walk(device, pips, driver, wires, hops));
            assert(wires.last() == wire);
        } else {
            let hop = self.tree.parent@[wire];
            assert(self.tree.hangs(device, wire));
            self.lemma_depth_is_reachable(device, pips, driver, hop.wire, (depth - 1) as nat);
            let (wires, hops) = choose|wires: Seq<WireId>, hops: Seq<PipId>| #[trigger]
                is_pip_walk(device, pips, driver, wires, hops) && wires.last() == hop.wire;
            let longer = wires.push(wire);
            let more = hops.push(hop.pip);
            assert forall|i: int| 0 <= i < more.len() implies pips.contains(#[trigger] more[i])
                && device.leads(longer[i], more[i], longer[i + 1]) by {
                if i < hops.len() {
                    assert(pips.contains(hops[i]) && device.leads(wires[i], hops[i], wires[i + 1]));
                }
            }
            assert(is_pip_walk(device, pips, driver, longer, more));
            assert(longer.last() == wire);
        }
    }

    /// Every wire of a walk is in the tree once every wire is done.
    proof fn lemma_walk_in_tree(
        &self,
        device: &Device,
        pips: Set<PipId>,
        driver: WireId,
        wires: Seq<WireId>,
        hops: Seq<PipId>,
        index: int,
    )
        requires
            device.wf(),
            self.wf(device, pips, driver),
            forall|w: WireId| #[trigger]
                self.tree.wires@.contains(w) ==> self.done(device, pips, w),
            is_pip_walk(device, pips, driver, wires, hops),
            0 <= index < wires.len(),
        ensures
            self.tree.wires@.contains(wires[index]),
        decreases index,
    {
        if index > 0 {
            self.lemma_walk_in_tree(device, pips, driver, wires, hops, index - 1);
            let wire = wires[index - 1];
            assert(pips.contains(hops[index - 1]));
            device.lemma_listed(wire, hops[index - 1], wires[index]);
            let k = device.neighbors@[wire.0 as int]@.index_of((wires[index], hops[index - 1]));
            assert(self.done(device, pips, wire));
            assert(self.hop_done(device, pips, wire, k));
        }
    }
}

impl Exploration {
    /// A walk without repeated wires goes down the tree.
    proof fn lemma_walk_goes_down(
        &self,
        device: &Device,
        pips: Set<PipId>,
        driver: WireId,
        wires: Seq<WireId>,
        hops: Seq<PipId>,
        index: int,
    )
        requires
            self.wf(device, pips, driver),
            self.used@ == pips,
            is_pip_walk(device, pips, driver, wires, hops),
            wires.no_duplicates(),
            0 <= index < hops.len(),
        ensures
            self.tree.parent@.contains_key(wires[index + 1]),
            self.tree.parent@[wires[index + 1]].wire == wires[index],
        decreases index,
    {
        let pip = hops[index];
        let from = wires[index];
        let to = wires[index + 1];
        assert(pips.contains(pip) && device.leads(from, pip, to));
        assert(self.enters(pip));
        let c = choose|c: WireId| #[trigger]
            self.tree.parent@.contains_key(c) && self.tree.parent@[c].pip == pip;
        assert(self.tree.hangs(device, c));
        let above = self.tree.parent@[c].wire;
        assert(device.leads(above, pip, c));
        if index > 0 {
            self.lemma_walk_goes_down(device, pips, driver, wires, hops, index - 1);
            assert(wires[index - 1] != wires[index + 1]);
        }
        assert(wires[index] != wires[index + 1]);
    }

    /// A wire has a child where a path goes on from it.
    proof fn lemma_child_goes_on(
        &self,
        device: &Device,
        pips: Set<PipId>,
        driver: WireId,
        wire: WireId,
    )
        requires
            self.wf(device, pips, driver),
            self.used@ == pips,
        ensures
            goes_on(device, pips, driver, wire) == self.has_child(wire),
    {
        if goes_on(device, pips, driver, wire) {
            let (wires, hops) = choose|wires: Seq<WireId>, hops: Seq<PipId>|
                #[trigger] is_pip_walk(device, pips, driver, wires, hops) && wires.no_duplicates()
                    && wires.drop_last().contains(wire);
            let i = wires.drop_last().index_of(wire);
            assert(wires[i] == wire);
            self.lemma_walk_goes_down(device, pips, driver, wires, hops, i);
            assert(self.has_child(wire));
        }
        if self.has_child(wire) {
            let child = choose|c: WireId| #[trigger]
                self.tree.parent@.contains_key(c) && self.tree.parent@[c].wire == wire;
            assert(self.tree.hangs(device, child));
            assert(self.tree.anchored(child));
            let depth = choose|depth: nat| tree_depth(self.tree.parent@, driver, child, depth);
            let (wires, hops) = self.lemma_path_down(device, pips, driver, child, depth);
            assert(wires[wires.len() - 2] == wire);
            assert(wires.drop_last()[wires.len() - 2] == wire);
        }
    }

    /// The path down the tree to a wire.
    proof fn lemma_path_down(
        &self,
        device: &Device,
        pips: Set<PipId>,
        driver: WireId,
        wire: WireId,
        depth: nat,
    ) -> (path: (Seq<WireId>, Seq<PipId>))
        requires
            self.wf(device, pips, driver),
            tree_depth(self.tree.parent@, driver, wire, depth),
        ensures
            is_pip_walk(device, pips, driver, path.0, path.1),
            path.0.no_duplicates(),
            path.0.last() == wire,
            path.0.len() == depth + 1,
            wire != driver ==> depth > 0 && path.0[path.0.len() - 2]
                == self.tree.parent@[wire].wire,
            forall|i: int|
                0 <= i < path.0.len() ==> tree_depth(
                    self.tree.parent@,
                    driver,
                    #[trigger] path.0[i],
                    i as nat,
                ),
        decreases depth,
    {
        if wire == driver {
            lemma_depth_unique(self.tree.parent@, driver, wire, depth, 0);
            (seq![driver], Seq::empty())
        } else {
            let hop = self.tree.parent@[wire];
            assert(self.tree.hangs(device, wire));
            let above = self.lemma_path_down(device, pips, driver, hop.wire, (depth - 1) as nat);
            let wires = above.0.push(wire);
            let hops = above.1.push(hop.pip);
            assert forall|i: int| 0 <= i < hops.len() implies pips.contains(#[trigger] hops[i])
                && device.leads(wires[i], hops[i], wires[i + 1]) by {
                if i < above.1.len() {
                    assert(pips.contains(above.1[i]) && device.leads(
                        above.0[i],
                        above.1[i],
                        above.0[i + 1],
                    ));
                }
            }
            assert forall|i: int| 0 <= i < wires.len() implies tree_depth(
                self.tree.parent@,
                driver,
                #[trigger] wires[i],
                i as nat,
            ) by {
                if i < above.0.len() {
                    assert(tree_depth(self.tree.parent@, driver, above.0[i], i as nat));
                }
            }
            assert forall|i: int, j: int| 0 <= i < wires.len() && 0 <= j < wires.len() && i
                != j implies wires[i] != wires[j] by {
                if wires[i] == wires[j] {
                    lemma_depth_unique(self.tree.parent@, driver, wires[i], i as nat, j as nat);
                }
            }
            (wires, hops)
        }
    }
}

/// A wire has one depth.
proof fn lemma_depth_unique(
    parent: Map<WireId, ParentHop>,
    driver: WireId,
    wire: WireId,
    a: nat,
    b: nat,
)
    requires
        tree_depth(parent, driver, wire, a),
        tree_depth(parent, driver, wire, b),
    ensures
        a == b,
    decreases a,
{
    if a > 0 && b > 0 {
        lemma_depth_unique(parent, driver, parent[wire].wire, (a - 1) as nat, (b - 1) as nat);
    }
}

/// Endpoint arcs of an explored tree.
spec fn arcs_ok(found: Exploration, device: &Device, arcs: Seq<RouteArc>) -> bool {
    forall|i: int|
        0 <= i < arcs.len() ==> {
            let arc = #[trigger] arcs[i];
            &&& arc.is_path(device, found.tree.driver)
            &&& found.tree.follows(arc.wires@, arc.pips@)
            &&& forall|j: int|
                0 <= j < arc.wires@.len() ==> found.tree.wires@.contains(
                    #[trigger] arc.wires@[j],
                )
        }
}

/// Some arc ends at the wire.
spec fn ends_at(arcs: Seq<RouteArc>, wire: WireId) -> bool {
    exists|i: int| 0 <= i < arcs.len() && (#[trigger] arcs[i]).wires@.last() == wire
}

/// Some arc passes the wire.
spec fn passes(arcs: Seq<RouteArc>, wire: WireId) -> bool {
    exists|i: int| 0 <= i < arcs.len() && (#[trigger] arcs[i]).wires@.contains(wire)
}

/// Where arcs end at every wire without a child, they pass every wire.
proof fn lemma_arcs_cover(
    found: Exploration,
    device: &Device,
    pips: Set<PipId>,
    driver: WireId,
    arcs: Seq<RouteArc>,
    wire: WireId,
    depth: nat,
)
    requires
        found.wf(device, pips, driver),
        arcs_ok(found, device, arcs),
        forall|w: WireId| #[trigger]
            found.tree.wires@.contains(w) && !found.has_child(w) ==> ends_at(arcs, w),
        found.tree.wires@.contains(wire),
        tree_depth(found.tree.parent@, driver, wire, depth),
    ensures
        passes(arcs, wire),
    decreases found.tree.wires.ordered().len() - depth,
{
    found.tree.lemma_depth_bound(device, wire, depth);
    if found.has_child(wire) {
        let child = choose|c: WireId| #[trigger]
            found.tree.parent@.contains_key(c) && found.tree.parent@[c].wire == wire;
        assert(found.tree.hangs(device, child));
        assert(tree_depth(found.tree.parent@, driver, child, (depth + 1) as nat));
        found.tree.lemma_depth_bound(device, child, (depth + 1) as nat);
        lemma_arcs_cover(found, device, pips, driver, arcs, child, (depth + 1) as nat);
        let i = choose|i: int|
            0 <= i < arcs.len() && (#[trigger] arcs[i]).wires@.contains(child);
        let arc = arcs[i];
        let j = arc.wires@.index_of(child);
        assert(arc.wires@[0] == driver);
        assert(j > 0);
        assert(arc.pips@[j - 1] == arc.pips@[j - 1]);
        assert(found.tree.parent@[arc.wires@[j - 1 + 1]] == (ParentHop {
            wire: arc.wires@[j - 1],
            pip: arc.pips@[j - 1],
        }));
        assert(arc.wires@[j - 1] == wire);
        assert(arcs[i].wires@.contains(wire));
    } else {
        assert(ends_at(arcs, wire));
        let i = choose|i: int| 0 <= i < arcs.len() && (#[trigger] arcs[i]).wires@.last() == wire;
        let arc = arcs[i];
        assert(arc.wires@[arc.wires@.len() - 1] == wire);
        assert(arcs[i].wires@.contains(wire));
    }
}

impl NetRoute {
    /// Decomposes a driver-rooted physical tree into canonical endpoint arcs.
    /// Extra leaves are retained as architecture topology arcs.
    ///
    /// Fails with a description where a PIP is unknown, the selected resources
    /// are not one driver-rooted tree, or a sink is disconnected.
    pub fn from_tree(
        net: NetId,
        driver: WireId,
        sinks: &[(CellPinId, WireId)],
        pips: &[PipId],
        device: &Device,
    ) -> (result: Result<NetRoute, String>)
        requires
            device.wf(),
        ensures
            match result {
                Err(reason) => tree_defect(device, pips, driver, sinks, reason@),
                Ok(route) => {
                    let set = pips@.to_set();
                    let wires = reach(device, set, driver);
                    &&& forall|p: PipId| #[trigger] set.contains(p) ==> p.0 < device.pips@.len()
                    &&& set.len() + 1 == wires.len()
                    &&& route.net == net
                    &&& route.is_fresh()
                    &&& crate::route::arcs_sorted(route.arcs@)
                    &&& forall|i: int|
                        0 <= i < route.arcs@.len() ==> (#[trigger] route.arcs@[i]).is_path(
                            device,
                            driver,
                        )
                    &&& forall|k: int|
                        0 <= k < sinks@.len() ==> wires.contains((#[trigger] sinks@[k]).1)
                    &&& exists|ends: Seq<WireId>|
                        #[trigger] lists_free_ends(device, set, driver, sinks@, ends) && endpoints(
                            route.arcs@,
                        ).to_multiset() == tree_endpoints(sinks@, ends).to_multiset()
                    &&& forall|p: PipId| #[trigger] route.has_pip(p) <==> set.contains(p)
                    &&& forall|w: WireId| #[trigger] route.has_wire(w) <==> wires.contains(w)
                },
            },
    {
        let set = OrderedSet::from_slice(pips);
        proof {
            set.size();
        }
        let mut index: usize = 0;
        while index < set.len()
            invariant
                index <= set.ordered().len(),
                set.wf(),
                set@ == pips@.to_set(),
                forall|i: int| 0 <= i < index ==> (#[trigger] set.ordered()[i]).0 < device.pips@.len(),
            decreases set.ordered().len() - index,
        {
            let pip = set.at(index);
            if pip.0 >= device.pips.len() {
                proof {
                    assert forall|q: PipId| #[trigger] pips@.to_set().contains(q) && q.0
                        >= device.pips@.len() implies pip.0 <= q.0 by {
                        set.membership(q);
                        let j = set.ordered().index_of(q);
                        assert(j >= index);
                        if j > index {
                            assert(set.ordered()[index as int].rank() < set.ordered()[j].rank());
                        }
                    }
                    assert(pips@.to_set().contains(pip));
                }
                return Err(numbered("unknown PIP PipId(", pip.0, ")"));
            }
            index = index + 1;
        }
        proof {
            assert forall|p: PipId| #[trigger] pips@.to_set().contains(p) implies p.0
                < device.pips@.len() by {
                set.membership(p);
                let j = set.ordered().index_of(p);
                assert(set.ordered()[j] == p);
            }
        }
        let found = Exploration::explore(driver, &set, device);
        proof {
            found.used.size();
            found.tree.wires.size();
            assert forall|p: PipId| found.used@.contains(p) implies set@.contains(p) by {
                assert(found.enters(p));
            }
        }
        if found.used.len() != set.len() {
            return Err(String::from_str("physical route is not one driver-rooted tree"));
        }
        proof {
            vstd::set_lib::lemma_subset_equality(found.used@, set@);
        }
        let mut arcs: Vec<RouteArc> = Vec::new();
        let mut sink_wires: OrderedSet<WireId> = OrderedSet::new();
        let mut index: usize = 0;
        while index < sinks.len()
            invariant
                index <= sinks@.len(),
                set@ == pips@.to_set(),
                found.wf(device, set@, driver),
                found.tree.wires@ == reach(device, set@, driver),
                pips@.to_set().len() + 1 == reach(device, set@, driver).len(),
                forall|p: PipId| #[trigger]
                    pips@.to_set().contains(p) ==> p.0 < device.pips@.len(),
                sink_wires.wf(),
                arcs_ok(found, device, arcs@),
                forall|k: int|
                    0 <= k < index ==> found.tree.wires@.contains((#[trigger] sinks@[k]).1),
                arcs@.len() == index,
                forall|k: int|
                    0 <= k < index ==> (#[trigger] arcs@[k]).sink == Some(sinks@[k].0)
                        && arcs@[k].wires@.last() == sinks@[k].1,
                forall|w: WireId| #[trigger] sink_wires@.contains(w) ==> ends_at(arcs@, w),
                forall|w: WireId| #[trigger]
                    sink_wires@.contains(w) <==> is_sink_wire(sinks@.take(index as int), w),
            decreases sinks@.len() - index,
        {
            let sink = sinks[index].0;
            let wire = sinks[index].1;
            match found.tree.arc_to(Some(sink), wire, device) {
                None => {
                    assert(!reach(device, pips@.to_set(), driver).contains(
                        sinks@[index as int].1,
                    ));
                    return Err(numbered("sink pin ", sink.0, " is disconnected"));
                },
                Some(arc) => {
                    let ghost before = arcs@;
                    arcs.push(arc);
                    sink_wires.insert(wire);
                    proof {
                        let shorter = sinks@.take(index as int);
                        let longer = sinks@.take(index + 1);
                        assert forall|w: WireId| #[trigger]
                            sink_wires@.contains(w) <==> is_sink_wire(longer, w) by {
                            if w == wire {
                                assert(longer[index as int].1 == w);
                            } else if is_sink_wire(longer, w) {
                                let k = choose|k: int|
                                    0 <= k < longer.len() && (#[trigger] longer[k]).1 == w;
                                assert(shorter[k].1 == w);
                            } else if is_sink_wire(shorter, w) {
                                let k = choose|k: int|
                                    0 <= k < shorter.len() && (#[trigger] shorter[k]).1 == w;
                                assert(longer[k].1 == w);
                            }
                        }
                        assert forall|w: WireId| #[trigger] sink_wires@.contains(w) implies ends_at(
                            arcs@,
                            w,
                        ) by {
                            if w == wire {
                                assert(arcs@[index as int].wires@.last() == w);
                            } else {
                                assert(ends_at(before, w));
                                let i = choose|i: int|
                                    0 <= i < before.len() && (#[trigger] before[i]).wires@.last()
                                        == w;
                                assert(arcs@[i].wires@.last() == w);
                            }
                        }
                    }
                },
            }
            index = index + 1;
        }
        let ghost mut ends: Seq<WireId> = Seq::empty();
        proof {
            assert(sinks@.take(sinks@.len() as int) =~= sinks@);
            crate::ordered::increasing_has_no_duplicates(found.tree.wires.ordered());
            assert(found.tree.wires.ordered().take(0) =~= Seq::<WireId>::empty());
        }
        let mut index: usize = 0;
        while index < found.tree.wires.len()
            invariant
                found.tree.wires.ordered().no_duplicates(),
                arcs@.len() == sinks@.len() + ends.len(),
                ends.no_duplicates(),
                forall|w: WireId| #[trigger]
                    ends.contains(w) <==> found.tree.wires.ordered().take(index as int).contains(w)
                        && !found.has_child(w) && !sink_wires@.contains(w),
                forall|j: int|
                    sinks@.len() <= j < arcs@.len() ==> (#[trigger] arcs@[j]).sink is None
                        && arcs@[j].wires@.last() == ends[j - sinks@.len()],
                index <= found.tree.wires.ordered().len(),
                found.wf(device, set@, driver),
                sink_wires.wf(),
                arcs_ok(found, device, arcs@),
                arcs@.len() >= sinks@.len(),
                forall|k: int|
                    0 <= k < sinks@.len() ==> (#[trigger] arcs@[k]).sink == Some(sinks@[k].0)
                        && arcs@[k].wires@.last() == sinks@[k].1,
                forall|w: WireId| #[trigger] sink_wires@.contains(w) ==> ends_at(arcs@, w),
                forall|i: int|
                    0 <= i < index && !found.has_child(#[trigger] found.tree.wires.ordered()[i])
                        ==> ends_at(arcs@, found.tree.wires.ordered()[i]),
            decreases found.tree.wires.ordered().len() - index,
        {
            let leaf = found.tree.wires.at(index);
            let ghost known = ends;
            proof {
                let shorter = found.tree.wires.ordered().take(index as int);
                let longer = found.tree.wires.ordered().take(index + 1);
                assert(longer =~= shorter.push(leaf));
                assert forall|w: WireId| #[trigger] longer.contains(w) <==> shorter.contains(w) || w
                    == leaf by {
                    if shorter.contains(w) {
                        let k = shorter.index_of(w);
                        assert(longer[k] == w);
                    }
                    if w == leaf {
                        assert(longer[index as int] == w);
                    }
                }
                assert(!shorter.contains(leaf)) by {
                    if shorter.contains(leaf) {
                        let k = shorter.index_of(leaf);
                        assert(found.tree.wires.ordered()[k]
                            == found.tree.wires.ordered()[index as int]);
                    }
                }
                assert(found.tree.wires.ordered().contains(leaf));
                found.tree.wires.membership(leaf);
                if !found.has_child(leaf) && !sink_wires@.contains(leaf) {
                    ends = ends.push(leaf);
                    assert(!known.contains(leaf));
                    assert forall|i: int, j: int|
                        0 <= i < ends.len() && 0 <= j < ends.len() && i != j implies ends[i]
                        != ends[j] by {
                        if i < known.len() {
                            assert(known.contains(known[i]));
                        }
                        if j < known.len() {
                            assert(known.contains(known[j]));
                        }
                    }
                    assert forall|w: WireId| #[trigger] ends.contains(w) <==> known.contains(w) || w
                        == leaf by {
                        if known.contains(w) {
                            let k = known.index_of(w);
                            assert(ends[k] == w);
                        }
                        if w == leaf {
                            assert(ends[known.len() as int] == w);
                        }
                    }
                }
            }
            assert(found.inner@.contains(leaf) <==> found.has_child(leaf));
            if !found.inner.contains(leaf) && !sink_wires.contains(leaf) {
                if let Some(arc) = found.tree.arc_to(None, leaf, device) {
                    let ghost before = arcs@;
                    arcs.push(arc);
                    proof {
                        assert(arcs@[before.len() as int].wires@.last() == leaf);
                        assert forall|w: WireId| #[trigger] sink_wires@.contains(w) implies ends_at(
                            arcs@,
                            w,
                        ) by {
                            assert(ends_at(before, w));
                            let i = choose|i: int|
                                0 <= i < before.len() && (#[trigger] before[i]).wires@.last() == w;
                            assert(arcs@[i].wires@.last() == w);
                        }
                        assert forall|i: int|
                            0 <= i < index && !found.has_child(
                                #[trigger] found.tree.wires.ordered()[i],
                            ) implies ends_at(arcs@, found.tree.wires.ordered()[i]) by {
                            let w = found.tree.wires.ordered()[i];
                            assert(ends_at(before, w));
                            let k = choose|k: int|
                                0 <= k < before.len() && (#[trigger] before[k]).wires@.last() == w;
                            assert(arcs@[k].wires@.last() == w);
                        }
                    }
                }
            }
            index = index + 1;
        }
        let ghost built = arcs@;
        let route = NetRoute::new(net, arcs);
        proof {
            assert forall|w: WireId| #[trigger] found.tree.wires@.contains(w) && !found.has_child(
                w,
            ) implies ends_at(built, w) by {
                found.tree.wires.membership(w);
                let i = found.tree.wires.ordered().index_of(w);
                assert(found.tree.wires.ordered()[i] == w);
            }
            lemma_decomposed(found, device, set@, driver, built, route);
            let order = found.tree.wires.ordered();
            assert(order.take(order.len() as int) =~= order);
            assert forall|w: WireId| #[trigger] ends.contains(w) <==> is_free_end(
                device,
                set@,
                driver,
                sinks@,
                w,
            ) by {
                found.lemma_child_goes_on(device, set@, driver, w);
                found.tree.wires.membership(w);
            }
            assert(lists_free_ends(device, set@, driver, sinks@, ends));
            assert(endpoints(built) =~= tree_endpoints(sinks@, ends));
            lemma_mapped_multiset(
                route.arcs@,
                built,
                |arc: RouteArc| (arc.sink, arc.wires@.last()),
            );
        }
        Ok(route)
    }
}

/// Arcs of a whole tree take its wires and its PIPs, and no others.
proof fn lemma_decomposed(
    found: Exploration,
    device: &Device,
    pips: Set<PipId>,
    driver: WireId,
    built: Seq<RouteArc>,
    route: NetRoute,
)
    requires
        found.wf(device, pips, driver),
        found.used@ == pips,
        arcs_ok(found, device, built),
        forall|w: WireId| #[trigger]
            found.tree.wires@.contains(w) && !found.has_child(w) ==> ends_at(built, w),
        route.is_fresh(),
        forall|arc: RouteArc| #[trigger] route.arcs@.contains(arc) <==> built.contains(arc),
    ensures
        forall|i: int|
            0 <= i < route.arcs@.len() ==> (#[trigger] route.arcs@[i]).is_path(device, driver),
        forall|p: PipId| #[trigger] route.has_pip(p) <==> pips.contains(p),
        forall|w: WireId| #[trigger] route.has_wire(w) <==> found.tree.wires@.contains(w),
{
    route.lemma_resources();
    assert forall|i: int| 0 <= i < route.arcs@.len() implies {
        let arc = #[trigger] route.arcs@[i];
        &&& arc.is_path(device, driver)
        &&& found.tree.follows(arc.wires@, arc.pips@)
        &&& forall|j: int|
            0 <= j < arc.wires@.len() ==> found.tree.wires@.contains(#[trigger] arc.wires@[j])
    } by {
        assert(route.arcs@.contains(route.arcs@[i]));
        let k = built.index_of(route.arcs@[i]);
        assert(built[k] == route.arcs@[i]);
    }
    assert forall|w: WireId| #[trigger] route.has_wire(w) <==> found.tree.wires@.contains(w) by {
        if found.tree.wires@.contains(w) {
            assert(found.tree.anchored(w));
            let depth = choose|depth: nat| tree_depth(found.tree.parent@, driver, w, depth);
            lemma_arcs_cover(found, device, pips, driver, built, w, depth);
            let k = choose|k: int| 0 <= k < built.len() && (#[trigger] built[k]).wires@.contains(w);
            assert(built.contains(built[k]));
            assert(route.arcs@.contains(built[k]));
            let i = route.arcs@.index_of(built[k]);
            assert(route.arcs@[i].wires@.contains(w));
        }
        if route.has_wire(w) {
            let i = choose|i: int|
                0 <= i < route.arcs@.len() && (#[trigger] route.arcs@[i]).wires@.contains(w);
            let j = route.arcs@[i].wires@.index_of(w);
            assert(route.arcs@[i].wires@[j] == w);
        }
    }
    assert forall|p: PipId| #[trigger] route.has_pip(p) <==> pips.contains(p) by {
        if route.has_pip(p) {
            let i = choose|i: int|
                0 <= i < route.arcs@.len() && (#[trigger] route.arcs@[i]).pips@.contains(p);
            let arc = route.arcs@[i];
            let j = arc.pips@.index_of(p);
            assert(arc.pips@[j] == p);
            assert(found.tree.parent@.contains_key(arc.wires@[j + 1]));
        }
        if pips.contains(p) {
            assert(found.enters(p));
            let c = choose|c: WireId| #[trigger]
                found.tree.parent@.contains_key(c) && found.tree.parent@[c].pip == p;
            assert(found.tree.hangs(device, c));
            assert(route.has_wire(c));
            let i = choose|i: int|
                0 <= i < route.arcs@.len() && (#[trigger] route.arcs@[i]).wires@.contains(c);
            let arc = route.arcs@[i];
            let j = arc.wires@.index_of(c);
            assert(arc.wires@[0] == driver);
            assert(j > 0);
            assert(arc.pips@[j - 1] == arc.pips@[j - 1]);
            assert(found.tree.parent@[arc.wires@[j - 1 + 1]] == (ParentHop {
                wire: arc.wires@[j - 1],
                pip: arc.pips@[j - 1],
            }));
            assert(arc.pips@.contains(p));
        }
    }
}

} // verus!
