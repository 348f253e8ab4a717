//! Which connections wait for which full resources.

use vstd::prelude::*;

use crate::model::{Connection, PipId, WireId};
use crate::ordered::{OrderedKey, OrderedMap, OrderedSet};
use crate::search::HardRoutingBlockers;

verus! {

/// The connections that wait for each resource.
pub struct SubscriberIndex<K: OrderedKey> {
    /// The connections, by resource; no resource has none.
    pub table: OrderedMap<K, OrderedSet<Connection>>,
}

impl<K: OrderedKey> SubscriberIndex<K> {
    /// The sets are ordered, and none is empty.
    pub open spec fn wf(&self) -> bool {
        &&& self.table.wf()
        &&& forall|k: K| #[trigger]
            self.table@.contains_key(k) ==> self.table@[k].wf() && self.table@[k]@ != Set::<
                Connection,
            >::empty()
    }

    /// The connection waits for the resource.
    pub open spec fn holds(&self, key: K, connection: Connection) -> bool {
        self.table@.contains_key(key) && self.table@[key]@.contains(connection)
    }

    /// Nobody waits.
    pub fn new() -> (result: Self)
        ensures
            result.wf(),
            forall|k: K, c: Connection| !#[trigger] result.holds(k, c),
    {
        SubscriberIndex { table: OrderedMap::new() }
    }

    /// Lets the connection wait for the resources.
    pub fn subscribe(&mut self, keys: &OrderedSet<K>, connection: Connection)
        requires
            old(self).wf(),
            keys.wf(),
        ensures
            final(self).wf(),
            forall|k: K, c: Connection| #[trigger]
                final(self).holds(k, c) <==> old(self).holds(k, c) || (c == connection
                    && keys@.contains(k)),
    {
        let mut index: usize = 0;
        while index < keys.len()
            invariant
                index <= keys.ordered().len(),
                keys.wf(),
                self.wf(),
                forall|k: K, c: Connection| #[trigger]
                    self.holds(k, c) <==> old(self).holds(k, c) || (c == connection
                        && keys.ordered().take(index as int).contains(k)),
            decreases keys.ordered().len() - index,
        {
            let key = keys.at(index);
            let ghost before = *self;
            let mut waiting = match self.table.remove(key) {
                Some(waiting) => waiting,
                None => OrderedSet::new(),
            };
            waiting.insert(connection);
            assert(waiting@.contains(connection));
            self.table.insert(key, waiting);
            proof {
                let shorter = keys.ordered().take(index as int);
                let longer = keys.ordered().take(index + 1);
                assert(longer =~= shorter.push(key));
                assert forall|k: K, c: Connection| #[trigger] self.holds(k, c) <==> old(
                    self,
                ).holds(k, c) || (c == connection && longer.contains(k)) by {
                    assert(before.holds(k, c) <==> old(self).holds(k, c) || (c == connection
                        && shorter.contains(k)));
                    if shorter.contains(k) {
                        let at = shorter.index_of(k);
                        assert(longer[at] == k);
                    }
                    if k == key {
                        assert(longer[index as int] == k);
                    } else if longer.contains(k) {
                        let at = longer.index_of(k);
                        assert(shorter[at] == k);
                    }
                }
            }
            index = index + 1;
        }
        proof {
            assert(keys.ordered().take(index as int) =~= keys.ordered());
            assert forall|k: K, c: Connection| #[trigger] self.holds(k, c) <==> old(self).holds(
                k,
                c,
            ) || (c == connection && keys@.contains(k)) by {
                keys.membership(k);
            }
        }
    }

    /// Lets the connection wait no longer for the resources.
    pub fn unsubscribe(&mut self, keys: &OrderedSet<K>, connection: Connection)
        requires
            old(self).wf(),
            keys.wf(),
        ensures
            final(self).wf(),
            forall|k: K, c: Connection| #[trigger]
                final(self).holds(k, c) <==> old(self).holds(k, c) && !(c == connection
                    && keys@.contains(k)),
    {
        let mut index: usize = 0;
        while index < keys.len()
            invariant
                index <= keys.ordered().len(),
                keys.wf(),
                self.wf(),
                forall|k: K, c: Connection| #[trigger]
                    self.holds(k, c) <==> old(self).holds(k, c) && !(c == connection
                        && keys.ordered().take(index as int).contains(k)),
            decreases keys.ordered().len() - index,
        {
            let key = keys.at(index);
            let ghost before = *self;
            if let Some(waiting) = self.table.remove(key) {
                let mut waiting = waiting;
                waiting.remove(connection);
                if !waiting.is_empty() {
                    self.table.insert(key, waiting);
                }
            }
            proof {
                let shorter = keys.ordered().take(index as int);
                let longer = keys.ordered().take(index + 1);
                assert(longer =~= shorter.push(key));
                assert forall|k: K, c: Connection| #[trigger] self.holds(k, c) <==> old(
                    self,
                ).holds(k, c) && !(c == connection && longer.contains(k)) by {
                    assert(before.holds(k, c) <==> old(self).holds(k, c) && !(c == connection
                        && shorter.contains(k)));
                    if shorter.contains(k) {
                        let at = shorter.index_of(k);
                        assert(longer[at] == k);
                    }
                    if k == key {
                        assert(longer[index as int] == k);
                        if before.table@.contains_key(key) {
                            let left = before.table@[key]@.remove(connection);
                            if left != Set::<Connection>::empty() {
                                assert(self.table@[key]@ == left);
                            } else {
                                assert(!left.contains(c));
                            }
                        }
                    } else if longer.contains(k) {
                        let at = longer.index_of(k);
                        assert(shorter[at] == k);
                    }
                }
            }
            index = index + 1;
        }
        proof {
            assert(keys.ordered().take(index as int) =~= keys.ordered());
            assert forall|k: K, c: Connection| #[trigger] self.holds(k, c) <==> old(self).holds(
                k,
                c,
            ) && !(c == connection && keys@.contains(k)) by {
                keys.membership(k);
            }
        }
    }

    /// Collects the connections that wait for one of the resources.
    pub fn collect(&self, keys: &[K], into: &mut OrderedSet<Connection>)
        requires
            self.wf(),
            old(into).wf(),
        ensures
            final(into).wf(),
            forall|c: Connection| #[trigger]
                final(into)@.contains(c) <==> old(into)@.contains(c) || self.waits(keys@, c),
    {
        let mut index: usize = 0;
        while index < keys.len()
            invariant
                index <= keys@.len(),
                self.wf(),
                into.wf(),
                forall|c: Connection| #[trigger]
                    into@.contains(c) <==> old(into)@.contains(c) || self.waits(
                        keys@.take(index as int),
                        c,
                    ),
            decreases keys@.len() - index,
        {
            let ghost before = into@;
            let key = keys[index];
            if let Some(waiting) = self.table.get(key) {
                into.extend(waiting.as_slice());
            }
            proof {
                let shorter = keys@.take(index as int);
                let longer = keys@.take(index + 1);
                assert forall|c: Connection| #[trigger] into@.contains(c) <==> old(
                    into,
                )@.contains(c) || self.waits(longer, c) by {
                    assert(before.contains(c) <==> old(into)@.contains(c) || self.waits(
                        shorter,
                        c,
                    ));
                    if self.table@.contains_key(key) {
                        self.table@[key].membership(c);
                    }
                    if self.waits(shorter, c) {
                        let i = choose|i: int|
                            0 <= i < shorter.len() && self.holds(#[trigger] shorter[i], c);
                        assert(longer[i] == shorter[i]);
                    }
                    if self.holds(key, c) {
                        assert(self.holds(longer[index as int], c));
                    }
                    if self.waits(longer, c) {
                        let i = choose|i: int|
                            0 <= i < longer.len() && self.holds(#[trigger] longer[i], c);
                        if i < index {
                            assert(self.holds(shorter[i], c));
                        }
                    }
                }
            }
            index = index + 1;
        }
        assert(keys@.take(index as int) =~= keys@);
    }

    /// The connection waits for one of the resources.
    pub open spec fn waits(&self, keys: Seq<K>, connection: Connection) -> bool {
        exists|i: int| 0 <= i < keys.len() && self.holds(#[trigger] keys[i], connection)
    }
}

/// The full resources that each connection met when it was last searched.
pub struct LegalRoutePolishSubscriptions {
    /// What each connection met.
    pub blockers: OrderedMap<Connection, HardRoutingBlockers>,
    /// Who met each wire.
    pub wire_subscribers: SubscriberIndex<WireId>,
    /// Who met each PIP.
    pub pip_subscribers: SubscriberIndex<PipId>,
}

/// The connection met the wire.
pub open spec fn met_wire(
    blockers: Map<Connection, HardRoutingBlockers>,
    wire: WireId,
    connection: Connection,
) -> bool {
    blockers.contains_key(connection) && blockers[connection].wires@.contains(wire)
}

/// The connection met the PIP.
pub open spec fn met_pip(
    blockers: Map<Connection, HardRoutingBlockers>,
    pip: PipId,
    connection: Connection,
) -> bool {
    blockers.contains_key(connection) && blockers[connection].pips@.contains(pip)
}

/// The connection met one of the wires or PIPs.
pub open spec fn met_any(
    blockers: Map<Connection, HardRoutingBlockers>,
    wires: Seq<WireId>,
    pips: Seq<PipId>,
    connection: Connection,
) -> bool {
    ||| exists|i: int| 0 <= i < wires.len() && met_wire(blockers, #[trigger] wires[i], connection)
    ||| exists|i: int| 0 <= i < pips.len() && met_pip(blockers, #[trigger] pips[i], connection)
}

impl LegalRoutePolishSubscriptions {
    /// The indices hold what each connection met.
    pub open spec fn wf(&self) -> bool {
        &&& self.blockers.wf()
        &&& self.wire_subscribers.wf()
        &&& self.pip_subscribers.wf()
        &&& forall|c: Connection| #[trigger]
            self.blockers@.contains_key(c) ==> self.blockers@[c].wf()
        &&& forall|w: WireId, c: Connection| #[trigger]
            self.wire_subscribers.holds(w, c) <==> met_wire(self.blockers@, w, c)
        &&& forall|p: PipId, c: Connection| #[trigger]
            self.pip_subscribers.holds(p, c) <==> met_pip(self.blockers@, p, c)
    }

    /// Nobody met anything.
    pub fn new() -> (result: Self)
        ensures
            result.wf(),
            result.blockers@ == Map::<Connection, HardRoutingBlockers>::empty(),
    {
        LegalRoutePolishSubscriptions {
            blockers: OrderedMap::new(),
            wire_subscribers: SubscriberIndex::new(),
            pip_subscribers: SubscriberIndex::new(),
        }
    }

    /// Notes what a connection met, in the place of what it met before.
    pub fn replace(&mut self, connection: Connection, blockers: HardRoutingBlockers)
        requires
            old(self).wf(),
            blockers.wf(),
        ensures
            final(self).wf(),
            final(self).blockers@ == old(self).blockers@.insert(connection, blockers),
    {
        let ghost before = self.blockers@;
        if let Some(previous) = self.blockers.remove(connection) {
            assert(before.contains_key(connection));
            self.wire_subscribers.unsubscribe(&previous.wires, connection);
            self.pip_subscribers.unsubscribe(&previous.pips, connection);
        }
        assert(forall|w: WireId, c: Connection| #[trigger]
            self.wire_subscribers.holds(w, c) <==> met_wire(self.blockers@, w, c));
        assert(forall|p: PipId, c: Connection| #[trigger]
            self.pip_subscribers.holds(p, c) <==> met_pip(self.blockers@, p, c));
        self.wire_subscribers.subscribe(&blockers.wires, connection);
        self.pip_subscribers.subscribe(&blockers.pips, connection);
        self.blockers.insert(connection, blockers);
        assert(self.blockers@ =~= before.insert(connection, blockers));
    }

    /// The connections that met one of the wires or PIPs.
    pub fn subscribers(&self, wires: &[WireId], pips: &[PipId]) -> (result: OrderedSet<Connection>)
        requires
            self.wf(),
        ensures
            result.wf(),
            forall|c: Connection| #[trigger]
                result@.contains(c) <==> met_any(self.blockers@, wires@, pips@, c),
    {
        let mut result: OrderedSet<Connection> = OrderedSet::new();
        self.wire_subscribers.collect(wires, &mut result);
        self.pip_subscribers.collect(pips, &mut result);
        proof {
            assert forall|c: Connection| #[trigger] result@.contains(c) <==> met_any(
                self.blockers@,
                wires@,
                pips@,
                c,
            ) by {
                if self.wire_subscribers.waits(wires@, c) {
                    let i = choose|i: int|
                        0 <= i < wires@.len() && self.wire_subscribers.holds(
                            #[trigger] wires@[i],
                            c,
                        );
                    assert(met_wire(self.blockers@, wires@[i], c));
                }
                if self.pip_subscribers.waits(pips@, c) {
                    let i = choose|i: int|
                        0 <= i < pips@.len() && self.pip_subscribers.holds(#[trigger] pips@[i], c);
                    assert(met_pip(self.blockers@, pips@[i], c));
                }
                if exists|i: int|
                    0 <= i < wires@.len() && met_wire(self.blockers@, #[trigger] wires@[i], c) {
                    let i = choose|i: int|
                        0 <= i < wires@.len() && met_wire(self.blockers@, #[trigger] wires@[i], c);
                    assert(self.wire_subscribers.holds(wires@[i], c));
                }
                if exists|i: int|
                    0 <= i < pips@.len() && met_pip(self.blockers@, #[trigger] pips@[i], c) {
                    let i = choose|i: int|
                        0 <= i < pips@.len() && met_pip(self.blockers@, #[trigger] pips@[i], c);
                    assert(self.pip_subscribers.holds(pips@[i], c));
                }
            }
        }
        result
    }
}

} // verus!
