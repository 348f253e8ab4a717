//! Driver-rooted route tree and its endpoint arcs.

use vstd::prelude::*;
use vstd::string::*;

use crate::device::Device;
use crate::model::{CellPinId, PipId, WireId};
use crate::ordered::{OrderedMap, OrderedSet};
use crate::route::RouteArc;

verus! {

/// Hop that leads into a wire of a tree.
#[derive(Clone, Copy, Debug, PartialEq, Eq, Structural)]
pub struct ParentHop {
    /// Wire before it.
    pub wire: WireId,
    /// PIP between them.
    pub pip: PipId,
}

/// A chain of parent hops leads from a wire to the driver in some number of steps.
pub open spec fn tree_depth(
    parent: Map<WireId, ParentHop>,
    driver: WireId,
    wire: WireId,
    depth: nat,
) -> bool
    decreases depth,
{
    if wire == driver {
        depth == 0
    } else {
        &&& parent.contains_key(wire)
        &&& depth > 0
        &&& tree_depth(parent, driver, parent[wire].wire, (depth - 1) as nat)
    }
}

/// A chain of parent hops has one length.
pub proof fn lemma_tree_depth_unique(
    parent: Map<WireId, ParentHop>,
    driver: WireId,
    wire: WireId,
    a: nat,
    b: nat,
)
    requires
        tree_depth(parent, driver, wire, a),
        tree_depth(parent, driver, wire, b),
    ensures
        a == b,
    decreases a,
{
    if wire != driver {
        lemma_tree_depth_unique(
            parent,
            driver,
            parent[wire].wire,
            (a - 1) as nat,
            (b - 1) as nat,
        );
    }
}

/// New parent hops leave existing chains as they are.
pub proof fn lemma_tree_depth_extends(
    parent: Map<WireId, ParentHop>,
    more: Map<WireId, ParentHop>,
    driver: WireId,
    wire: WireId,
    depth: nat,
)
    requires
        forall|w: WireId| #[trigger]
            parent.contains_key(w) ==> more.contains_key(w) && more[w] == parent[w],
        tree_depth(parent, driver, wire, depth),
    ensures
        tree_depth(more, driver, wire, depth),
    decreases depth,
{
    if wire != driver {
        assert(parent.contains_key(wire));
        lemma_tree_depth_extends(
            parent,
            more,
            driver,
            parent[wire].wire,
            (depth - 1) as nat,
        );
    }
}

/// Wires joined to one driver, each with the hop that leads into it.
pub struct RouteTree {
    /// Wire of the driver.
    pub driver: WireId,
    /// Every wire of the tree.
    pub wires: OrderedSet<WireId>,
    /// Hop into each wire but the driver's.
    pub parent: OrderedMap<WireId, ParentHop>,
}

impl RouteTree {
    /// The parent hops of the wire lead to the driver.
    pub open spec fn anchored(&self, wire: WireId) -> bool {
        exists|depth: nat| tree_depth(self.parent@, self.driver, wire, depth)
    }

    /// The hop into a wire is one of the device, from a wire of the tree.
    pub open spec fn hangs(&self, device: &Device, wire: WireId) -> bool {
        let hop = self.parent@[wire];
        &&& self.wires@.contains(wire)
        &&& wire != self.driver
        &&& self.wires@.contains(hop.wire)
        &&& device.leads(hop.wire, hop.pip, wire)
    }

    /// Every wire but the driver's hangs on the tree.
    pub open spec fn wf(&self, device: &Device) -> bool {
        &&& self.wires.wf()
        &&& self.parent.wf()
        &&& self.wires@.contains(self.driver)
        &&& forall|w: WireId| #[trigger]
            self.wires@.contains(w) ==> w == self.driver || self.parent@.contains_key(w)
        &&& forall|w: WireId|
            self.parent@.contains_key(w) ==> #[trigger] self.hangs(device, w)
        &&& forall|w: WireId| self.wires@.contains(w) ==> #[trigger] self.anchored(w)
    }

    /// The arc takes the tree's own hop into each of its wires.
    pub open spec fn follows(&self, wires: Seq<WireId>, pips: Seq<PipId>) -> bool {
        forall|i: int|
            0 <= i < pips.len() ==> {
                &&& self.parent@.contains_key(wires[i + 1])
                &&& self.parent@[wires[i + 1]] == (ParentHop {
                    wire: wires[i],
                    pip: #[trigger] pips[i],
                })
            }
    }

    /// The tree of a driver alone.
    pub fn new(driver: WireId, device: &Device) -> (result: Self)
        ensures
            result.wf(device),
            result.driver == driver,
            result.wires@ == set![driver],
            result.parent@ == Map::<WireId, ParentHop>::empty(),
            result.wires.ordered().len() == 1,
    {
        let mut wires = OrderedSet::new();
        wires.insert(driver);
        let result = RouteTree { driver, wires, parent: OrderedMap::new() };
        proof {
            assert(result.wires@ =~= set![driver]);
            assert forall|w: WireId| result.wires@.contains(w) implies #[trigger] result.anchored(
                w,
            ) by {
                assert(w == driver);
                assert(tree_depth(result.parent@, result.driver, w, 0nat));
            }
        }
        result
    }

    /// Hangs a new wire on the tree.
    pub fn add(&mut self, wire: WireId, hop: ParentHop, device: &Device)
        requires
            old(self).wf(device),
            !old(self).wires@.contains(wire),
            old(self).wires@.contains(hop.wire),
            device.leads(hop.wire, hop.pip, wire),
        ensures
            final(self).wf(device),
            final(self).driver == old(self).driver,
            final(self).wires@ == old(self).wires@.insert(wire),
            final(self).parent@ == old(self).parent@.insert(wire, hop),
            final(self).wires.ordered().len() == old(self).wires.ordered().len() + 1,
    {
        let ghost before = *self;
        self.wires.insert(wire);
        self.parent.insert(wire, hop);
        proof {
            let after = *self;
            assert(!before.parent@.contains_key(wire)) by {
                if before.parent@.contains_key(wire) {
                    assert(before.hangs(device, wire));
                }
            }
            assert(before.anchored(hop.wire));
            let depth = choose|depth: nat|
                tree_depth(before.parent@, before.driver, hop.wire, depth);
            lemma_tree_depth_extends(
                before.parent@,
                after.parent@,
                before.driver,
                hop.wire,
                depth,
            );
            assert(tree_depth(after.parent@, after.driver, wire, (depth + 1) as nat));
            assert forall|w: WireId| after.wires@.contains(w) implies #[trigger] after.anchored(
                w,
            ) by {
                if w != wire {
                    assert(before.wires@.contains(w));
                    assert(before.anchored(w));
                    let known = choose|depth: nat|
                        tree_depth(before.parent@, before.driver, w, depth);
                    lemma_tree_depth_extends(
                        before.parent@,
                        after.parent@,
                        before.driver,
                        w,
                        known,
                    );
                }
            }
            assert forall|w: WireId| after.parent@.contains_key(w) implies #[trigger] after.hangs(
                device,
                w,
            ) by {
                if w != wire {
                    assert(before.parent@.contains_key(w));
                    assert(before.hangs(device, w));
                }
            }
        }
    }

    /// Arc from the driver to one wire of the tree.
    pub fn arc_to(&self, sink: Option<CellPinId>, endpoint: WireId, device: &Device) -> (result:
        Option<RouteArc>)
        requires
            self.wf(device),
        ensures
            result is Some <==> self.wires@.contains(endpoint),
            result matches Some(arc) ==> {
                &&& arc.sink == sink
                &&& arc.is_path(device, self.driver)
                &&& arc.wires@.last() == endpoint
                &&& self.follows(arc.wires@, arc.pips@)
                &&& forall|i: int|
                    0 <= i < arc.wires@.len() ==> self.wires@.contains(#[trigger] arc.wires@[i])
            },
    {
        if !self.wires.contains(endpoint) {
            return None;
        }
        let mut wires: Vec<WireId> = Vec::new();
        let mut pips: Vec<PipId> = Vec::new();
        let mut cursor = endpoint;
        wires.push(endpoint);
        assert(self.anchored(endpoint));
        let ghost depth = choose|depth: nat|
            tree_depth(self.parent@, self.driver, endpoint, depth);
        while cursor != self.driver
            invariant
                self.wf(device),
                self.wires@.contains(cursor),
                wires@.len() == pips@.len() + 1,
                wires@.last() == cursor,
                wires@[0] == endpoint,
                pips@.len() <= depth,
                forall|i: int|
                    0 <= i < wires@.len() ==> {
                        &&& self.wires@.contains(#[trigger] wires@[i])
                        &&& tree_depth(self.parent@, self.driver, wires@[i], (depth - i) as nat)
                    },
                forall|i: int|
                    0 <= i < pips@.len() ==> {
                        &&& self.parent@.contains_key(wires@[i])
                        &&& self.parent@[wires@[i]] == (ParentHop {
                            wire: wires@[i + 1],
                            pip: #[trigger] pips@[i],
                        })
                    },
            decreases depth - pips@.len(),
        {
            let hop = match self.parent.get(cursor) {
                Some(hop) => *hop,
                None => {
                    assert(false);
                    return None;
                },
            };
            proof {
                assert(self.hangs(device, cursor));
                let last = wires@.len() - 1;
                assert(tree_depth(self.parent@, self.driver, wires@[last], (depth - last) as nat));
            }
            pips.push(hop.pip);
            cursor = hop.wire;
            wires.push(cursor);
        }
        let forward = reversed(&wires);
        let hops = reversed(&pips);
        let arc = RouteArc { sink, wires: forward, pips: hops };
        proof {
            let last = pips@.len() as int;
            assert(arc.wires@[0] == wires@[last]);
            assert(arc.wires@.last() == wires@[0]);
            assert forall|i: int| 0 <= i < arc.pips@.len() implies {
                &&& device.leads(arc.wires@[i], #[trigger] arc.pips@[i], arc.wires@[i + 1])
                &&& self.parent@.contains_key(arc.wires@[i + 1])
                &&& self.parent@[arc.wires@[i + 1]] == (ParentHop {
                    wire: arc.wires@[i],
                    pip: arc.pips@[i],
                })
            } by {
                let k = last - 1 - i;
                assert(arc.pips@[i] == pips@[k]);
                assert(arc.wires@[i + 1] == wires@[k]);
                assert(arc.wires@[i] == wires@[k + 1]);
                assert(self.hangs(device, wires@[k]));
            }
            assert forall|a: int, b: int|
                0 <= a < arc.wires@.len() && 0 <= b < arc.wires@.len() && a
                    != b implies arc.wires@[a] != arc.wires@[b] by {
                let x = last - a;
                let y = last - b;
                assert(arc.wires@[a] == wires@[x]);
                assert(arc.wires@[b] == wires@[y]);
                if wires@[x] == wires@[y] {
                    lemma_tree_depth_unique(
                        self.parent@,
                        self.driver,
                        wires@[x],
                        (depth - x) as nat,
                        (depth - y) as nat,
                    );
                }
            }
            assert forall|i: int| 0 <= i < arc.wires@.len() implies self.wires@.contains(
                #[trigger] arc.wires@[i],
            ) by {
                assert(arc.wires@[i] == wires@[last - i]);
            }
        }
        Some(arc)
    }
}

/// The entries of a vector from last to first.
pub fn reversed<T: Copy>(items: &Vec<T>) -> (result: Vec<T>)
    ensures
        result@ == items@.reverse(),
{
    let mut result: Vec<T> = Vec::new();
    let mut index: usize = items.len();
    while index > 0
        invariant
            index <= items@.len(),
            result@.len() == items@.len() - index,
            forall|i: int| 0 <= i < result@.len() ==> result@[i] == items@[items@.len() - 1 - i],
        decreases index,
    {
        index = index - 1;
        result.push(items[index]);
    }
    assert(result@ =~= items@.reverse());
    result
}

impl RouteTree {
    /// The wires between a wire of the tree and the driver: as many as the chain has steps.
    proof fn lemma_ancestors(&self, device: &Device, wire: WireId, depth: nat) -> (ancestors: Set<
        WireId,
    >)
        requires
            self.wf(device),
            self.wires@.contains(wire),
            tree_depth(self.parent@, self.driver, wire, depth),
        ensures
            ancestors.finite(),
            ancestors.len() == depth + 1,
            ancestors.subset_of(self.wires@),
            forall|w: WireId| #[trigger]
                ancestors.contains(w) ==> exists|d: nat|
                    d <= depth && #[trigger] tree_depth(self.parent@, self.driver, w, d),
        decreases depth,
    {
        if wire == self.driver {
            let ancestors = Set::<WireId>::empty().insert(wire);
            assert(tree_depth(self.parent@, self.driver, wire, 0nat));
            ancestors
        } else {
            assert(self.hangs(device, wire));
            let above = self.lemma_ancestors(
                device,
                self.parent@[wire].wire,
                (depth - 1) as nat,
            );
            if above.contains(wire) {
                let d = choose|d: nat|
                    d <= depth - 1 && #[trigger] tree_depth(self.parent@, self.driver, wire, d);
                lemma_tree_depth_unique(self.parent@, self.driver, wire, d, depth);
            }
            let ancestors = above.insert(wire);
            assert forall|w: WireId| #[trigger] ancestors.contains(w) implies exists|d: nat|
                d <= depth && #[trigger] tree_depth(self.parent@, self.driver, w, d) by {
                if w == wire {
                    assert(tree_depth(self.parent@, self.driver, w, depth));
                } else {
                    let d = choose|d: nat|
                        d <= depth - 1 && #[trigger] tree_depth(self.parent@, self.driver, w, d);
                    assert(d <= depth && tree_depth(self.parent@, self.driver, w, d));
                }
            }
            ancestors
        }
    }

    /// A chain is shorter than the tree has wires.
    pub proof fn lemma_depth_bound(&self, device: &Device, wire: WireId, depth: nat)
        requires
            self.wf(device),
            self.wires@.contains(wire),
            tree_depth(self.parent@, self.driver, wire, depth),
        ensures
            depth < self.wires.ordered().len(),
    {
        let ancestors = self.lemma_ancestors(device, wire, depth);
        self.wires.size();
        vstd::set_lib::lemma_len_subset(ancestors, self.wires@);
    }
}

} // verus!
